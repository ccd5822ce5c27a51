//! Sharded storage with lazy TTL eviction.
//!
//! `Storage` is a fixed, power-of-two fan-out of `Shard`s; a key
//! lives in the shard its hash selects.  Each shard pairs a hashed
//! map from key bytes to `(value bytes, deadline)` with an
//! expiration index holding `(deadline, key)` pairs for every entry
//! that can expire.  No timer runs: before each write the shard
//! peeks the largest deadline in the index and, if that moment has
//! passed and the pair still matches the map, drops the entry.
//! Deadlines are milliseconds on the caller's clock; `0` means the
//! entry never expires, and reads treat a deadline at or before the
//! current time as absent.

use std::collections::hash_map::DefaultHasher;
use std::hash::Hasher;

use vstd::prelude::*;
use vstd::std_specs::hash::DefaultHasherAdditionalSpecFns;

use rustc_hash::FxHashMap;

use crate::ascii::clone_bytes;
use crate::fxmap::{fx_contents, fx_map_get, fx_map_insert, fx_map_new, fx_map_remove};

verus! {

/// Index of the first pair carrying the largest deadline.
pub open spec fn max_deadline_idx(s: Seq<(u64, Seq<u8>)>) -> int
    recommends
        s.len() >= 1,
    decreases s.len(),
{
    if s.len() <= 1 {
        0
    } else {
        let r = max_deadline_idx(s.drop_last());
        if s.last().0 > s[r].0 {
            s.len() - 1
        } else {
            r
        }
    }
}

pub proof fn lemma_max_deadline_idx(s: Seq<(u64, Seq<u8>)>)
    requires
        s.len() >= 1,
    ensures
        0 <= max_deadline_idx(s) < s.len(),
        forall|i: int| 0 <= i < s.len() ==> (#[trigger] s[i]).0 <= s[max_deadline_idx(s)].0,
    decreases s.len(),
{
    if s.len() > 1 {
        lemma_max_deadline_idx(s.drop_last());
        let t = s.drop_last();
        let r = max_deadline_idx(t);
        assert forall|i: int| 0 <= i < s.len() implies (#[trigger] s[i]).0
            <= s[max_deadline_idx(s)].0 by {
            if i < s.len() - 1 {
                assert(s[i] == t[i]);
                assert(t[i].0 <= t[r].0);
                assert(t[r] == s[r]);
            }
        }
    }
}

/// Removing one position keeps every pair that sat elsewhere.
proof fn lemma_seq_remove_keeps(s: Seq<(u64, Seq<u8>)>, mi: int, y: (u64, Seq<u8>))
    requires
        0 <= mi < s.len(),
        s.contains(y),
        s[mi] != y,
    ensures
        s.remove(mi).contains(y),
{
    let j = choose|j: int| 0 <= j < s.len() && s[j] == y;
    if j < mi {
        assert(s.remove(mi)[j] == y);
    } else {
        assert(s.remove(mi)[j - 1] == y);
    }
}

/// One independently lockable partition of the key space.
#[derive(Debug)]
pub struct Shard {
    storage: FxHashMap<Vec<u8>, (Vec<u8>, u64)>,
    eviction_state: Vec<(u64, Vec<u8>)>,
}

/// The single lazy-eviction step a write performs before mutating:
/// if the index is non-empty and its largest deadline has passed,
/// that pair leaves the index, and the map entry leaves with it when
/// it still carries exactly that deadline (otherwise the pair was
/// stale and is merely discarded).
pub open spec fn evict_step(
    c: Map<Seq<u8>, (Seq<u8>, u64)>,
    ix: Seq<(u64, Seq<u8>)>,
    now: u64,
) -> (Map<Seq<u8>, (Seq<u8>, u64)>, Seq<(u64, Seq<u8>)>) {
    if ix.len() > 0 && ix[max_deadline_idx(ix)].0 < now {
        let mi = max_deadline_idx(ix);
        let d = ix[mi].0;
        let k = ix[mi].1;
        let c2 = if c.contains_key(k) && c[k].1 == d {
            c.remove(k)
        } else {
            c
        };
        (c2, ix.remove(mi))
    } else {
        (c, ix)
    }
}

/// Deadline of an entry stored at `now` with the given TTL: `0` for
/// no expiry, otherwise `now + ttl`, saturating at the top of the
/// clock.
pub open spec fn spec_deadline(ttl: u64, now: u64) -> u64 {
    if ttl == 0 {
        0
    } else if now + ttl > u64::MAX {
        u64::MAX
    } else {
        (now + ttl) as u64
    }
}

/// The full effect of a set: one lazy-eviction step, then install or
/// overwrite the entry, recording its deadline in the index when it
/// can expire.
pub open spec fn set_step(
    c: Map<Seq<u8>, (Seq<u8>, u64)>,
    ix: Seq<(u64, Seq<u8>)>,
    key: Seq<u8>,
    value: Seq<u8>,
    ttl: u64,
    now: u64,
) -> (Map<Seq<u8>, (Seq<u8>, u64)>, Seq<(u64, Seq<u8>)>) {
    let stepped = evict_step(c, ix, now);
    let dl = spec_deadline(ttl, now);
    (
        stepped.0.insert(key, (value, dl)),
        if dl > 0 {
            stepped.1.push((dl, key))
        } else {
            stepped.1
        },
    )
}

impl Shard {
    /// The key/value/deadline entries this shard holds.
    pub closed spec fn contents(&self) -> Map<Seq<u8>, (Seq<u8>, u64)> {
        fx_contents(self.storage)
    }

    /// The expiration index: `(deadline, key)` pairs, stale ones
    /// included.
    pub closed spec fn index(&self) -> Seq<(u64, Seq<u8>)> {
        self.eviction_state@.map_values(|p: (u64, Vec<u8>)| (p.0, p.1@))
    }

    /// Every entry that can expire is covered by the index; the
    /// index may also hold stale pairs for entries that were
    /// overwritten or deleted, and never a pair without a deadline.
    pub open spec fn wf(&self) -> bool {
        &&& forall|k: Seq<u8>| #[trigger]
            self.contents().contains_key(k) ==> self.contents()[k].1 > 0 ==> self.index().contains(
                (self.contents()[k].1, k),
            )
        &&& forall|j: int| 0 <= j < self.index().len() ==> (#[trigger] self.index()[j]).0 > 0
    }

    pub fn new() -> (r: Shard)
        ensures
            r.contents() == Map::<Seq<u8>, (Seq<u8>, u64)>::empty(),
            r.index() == Seq::<(u64, Seq<u8>)>::empty(),
            r.wf(),
    {
        let r = Shard { storage: fx_map_new(), eviction_state: Vec::new() };
        proof {
            assert(r.index() =~= Seq::<(u64, Seq<u8>)>::empty());
        }
        r
    }

    /// The raw entry under a key, expired or not.
    pub fn get_value_by_key<'a>(&'a self, key: &Vec<u8>) -> (r: Option<&'a (Vec<u8>, u64)>)
        ensures
            match r {
                Some(e) => self.contents().contains_key(key@) && self.contents()[key@] == (
                e.0@, e.1),
                None => !self.contents().contains_key(key@),
            },
    {
        fx_map_get(&self.storage, key)
    }

    /// Install or overwrite an entry, returning the value previously
    /// stored under the key.
    pub fn add_or_update_kv(&mut self, key: &Vec<u8>, data: &Vec<u8>, deadline: u64) -> (prev:
        Option<Vec<u8>>)
        requires
            old(self).wf(),
        ensures
            final(self).wf(),
            final(self).contents() == old(self).contents().insert(key@, (data@, deadline)),
            final(self).index() == if deadline > 0 {
                old(self).index().push((deadline, key@))
            } else {
                old(self).index()
            },
            match prev {
                Some(v) => old(self).contents().contains_key(key@) && v@ == old(
                    self,
                ).contents()[key@].0,
                None => !old(self).contents().contains_key(key@),
            },
    {
        if deadline > 0 {
            self.eviction_state.push((deadline, clone_bytes(key)));
            proof {
                assert(self.index() =~= old(self).index().push((deadline, key@)));
            }
        }
        let ghost mid_index = self.index();
        let prev = fx_map_insert(&mut self.storage, clone_bytes(key), clone_bytes(data), deadline);
        proof {
            assert(self.index() == mid_index);
            assert forall|j: int| 0 <= j < self.index().len() implies (
            #[trigger] self.index()[j]).0 > 0 by {
                if deadline > 0 && j == self.index().len() - 1 {
                } else {
                    assert(self.index()[j] == old(self).index()[j]);
                }
            }
            let newc = self.contents();
            assert forall|k: Seq<u8>| #[trigger]
                newc.contains_key(k) implies newc[k].1 > 0 ==> self.index().contains(
                (newc[k].1, k),
            ) by {
                if k == key@ {
                    if deadline > 0 {
                        assert(self.index().last() == (deadline, key@));
                        assert(self.index().contains((deadline, key@)));
                    }
                } else {
                    assert(old(self).contents().contains_key(k));
                    assert(newc[k] == old(self).contents()[k]);
                    if newc[k].1 > 0 {
                        assert(old(self).index().contains((newc[k].1, k)));
                        let j = choose|j: int|
                            0 <= j < old(self).index().len() && old(self).index()[j] == (
                            newc[k].1,
                            k,
                            );
                        assert(self.index()[j] == (newc[k].1, k));
                        assert(self.index().contains((newc[k].1, k)));
                    }
                }
            }
        }
        match prev {
            Some(p) => Some(p.0),
            None => None,
        }
    }

    /// Remove the entry under a key; reports how many entries left
    /// (one or zero).  The index keeps any pair for the key; it goes
    /// stale and is discarded when it surfaces.
    pub fn del_entry(&mut self, key: &Vec<u8>) -> (r: usize)
        requires
            old(self).wf(),
        ensures
            final(self).wf(),
            final(self).contents() == old(self).contents().remove(key@),
            final(self).index() == old(self).index(),
            r == if old(self).contents().contains_key(key@) {
                1usize
            } else {
                0usize
            },
    {
        let prev = fx_map_remove(&mut self.storage, key);
        proof {
            let newc = self.contents();
            assert forall|k: Seq<u8>| #[trigger]
                newc.contains_key(k) implies newc[k].1 > 0 ==> self.index().contains(
                (newc[k].1, k),
            ) by {
                assert(old(self).contents().contains_key(k));
                assert(newc[k] == old(self).contents()[k]);
            }
            assert forall|j: int| 0 <= j < self.index().len() implies (
            #[trigger] self.index()[j]).0 > 0 by {
                assert(self.index()[j] == old(self).index()[j]);
            }
        }
        if prev.is_some() {
            1
        } else {
            0
        }
    }

    /// Position of the pair with the largest deadline.
    fn latest_index(&self) -> (r: usize)
        requires
            self.eviction_state@.len() >= 1,
        ensures
            r as int == max_deadline_idx(self.index()),
            r < self.eviction_state@.len(),
    {
        let ghost ix = self.index();
        let mut best: usize = 0;
        let mut i: usize = 1;
        proof {
            assert(ix.take(1) =~= seq![ix[0]]);
        }
        while i < self.eviction_state.len()
            invariant
                1 <= i <= self.eviction_state@.len(),
                ix == self.index(),
                ix.len() == self.eviction_state@.len(),
                best < i,
                best as int == max_deadline_idx(ix.take(i as int)),
            decreases self.eviction_state@.len() - i,
        {
            proof {
                assert(ix.take(i + 1).drop_last() =~= ix.take(i as int));
                assert(ix.take(i + 1).last() == ix[i as int]);
                assert(ix.take(i + 1)[max_deadline_idx(ix.take(i as int))] == ix[max_deadline_idx(
                    ix.take(i as int),
                )]);
                assert(ix[i as int].0 == self.eviction_state@[i as int].0);
                assert(ix[best as int].0 == self.eviction_state@[best as int].0);
                lemma_max_deadline_idx(ix.take(i as int));
            }
            if self.eviction_state[i].0 > self.eviction_state[best].0 {
                best = i;
            }
            i = i + 1;
        }
        proof {
            assert(ix.take(ix.len() as int) =~= ix);
        }
        best
    }

    /// Whether the pair with the largest deadline has expired.
    pub fn latest_is_expired(&self, now_ms: u64) -> (r: bool)
        ensures
            r == (self.index().len() > 0 && self.index()[max_deadline_idx(self.index())].0
                < now_ms),
    {
        if self.eviction_state.len() == 0 {
            return false;
        }
        let mi = self.latest_index();
        proof {
            assert(self.index()[mi as int].0 == self.eviction_state@[mi as int].0);
        }
        self.eviction_state[mi].0 < now_ms
    }

    /// Pop the pair with the largest deadline; drop the map entry it
    /// covers only when the deadlines still agree, since the pair
    /// may be stale.
    pub fn del_latest(&mut self)
        requires
            old(self).wf(),
            old(self).index().len() >= 1,
        ensures
            final(self).wf(),
            ({
                let ix = old(self).index();
                let mi = max_deadline_idx(ix);
                let d = ix[mi].0;
                let k = ix[mi].1;
                &&& final(self).index() == ix.remove(mi)
                &&& final(self).contents() == if old(self).contents().contains_key(k) && old(
                    self,
                ).contents()[k].1 == d {
                    old(self).contents().remove(k)
                } else {
                    old(self).contents()
                }
            }),
    {
        let ghost ix = old(self).index();
        proof {
            assert(self.eviction_state@.len() == ix.len());
        }
        let mi = self.latest_index();
        proof {
            lemma_max_deadline_idx(ix);
        }
        let d = self.eviction_state[mi].0;
        let key = clone_bytes(&self.eviction_state[mi].1);
        proof {
            assert(ix[mi as int] == (d, key@));
        }
        let _ = self.eviction_state.remove(mi);
        proof {
            assert(self.index() =~= ix.remove(mi as int));
        }
        let dead = match fx_map_get(&self.storage, &key) {
            Some(e) => e.1 == d,
            None => false,
        };
        if dead {
            let _ = fx_map_remove(&mut self.storage, &key);
        }
        proof {
            assert forall|j: int| 0 <= j < self.index().len() implies (
            #[trigger] self.index()[j]).0 > 0 by {
                if j < mi {
                    assert(self.index()[j] == ix[j]);
                } else {
                    assert(self.index()[j] == ix[j + 1]);
                }
            }
            let newc = self.contents();
            let oldc = old(self).contents();
            assert forall|k2: Seq<u8>| #[trigger]
                newc.contains_key(k2) implies newc[k2].1 > 0 ==> self.index().contains(
                (newc[k2].1, k2),
            ) by {
                assert(oldc.contains_key(k2));
                assert(newc[k2] == oldc[k2]);
                if newc[k2].1 > 0 {
                    assert(ix.contains((oldc[k2].1, k2)));
                    if k2 == key@ {
                        // The popped pair did not match this entry,
                        // otherwise the entry would be gone too.
                        assert(oldc[k2].1 != d);
                        lemma_seq_remove_keeps(ix, mi as int, (oldc[k2].1, k2));
                    } else {
                        if ix[mi as int] == (oldc[k2].1, k2) {
                            assert(ix[mi as int].1 == k2);
                            assert(false);
                        }
                        lemma_seq_remove_keeps(ix, mi as int, (oldc[k2].1, k2));
                    }
                }
            }
        }
    }

    /// One complete write: the lazy-eviction step, then install or
    /// overwrite.  Returns the value previously under the key, as
    /// the post-eviction map held it.
    pub fn set_entry(&mut self, key: &Vec<u8>, value: &Vec<u8>, ttl_ms: u64, now_ms: u64) -> (prev:
        Option<Vec<u8>>)
        requires
            old(self).wf(),
        ensures
            final(self).wf(),
            (final(self).contents(), final(self).index()) == set_step(
                old(self).contents(),
                old(self).index(),
                key@,
                value@,
                ttl_ms,
                now_ms,
            ),
            ({
                let stepped = evict_step(old(self).contents(), old(self).index(), now_ms);
                match prev {
                    Some(v) => stepped.0.contains_key(key@) && v@ == stepped.0[key@].0,
                    None => !stepped.0.contains_key(key@),
                }
            }),
    {
        if self.latest_is_expired(now_ms) {
            self.del_latest();
        }
        let deadline: u64 = if ttl_ms == 0 {
            0
        } else if ttl_ms > u64::MAX - now_ms {
            u64::MAX
        } else {
            now_ms + ttl_ms
        };
        self.add_or_update_kv(key, value, deadline)
    }
}

/// Whether `n` is a power of two.
pub open spec fn is_power_of_two(n: nat) -> bool
    decreases n,
{
    if n == 0 {
        false
    } else if n == 1 {
        true
    } else {
        n % 2 == 0 && is_power_of_two(n / 2)
    }
}

/// Runtime check for `is_power_of_two`.
pub fn check_power_of_two(n: usize) -> (r: bool)
    ensures
        r == is_power_of_two(n as nat),
{
    if n == 0 {
        return false;
    }
    let mut m: usize = n;
    while m % 2 == 0
        invariant
            m >= 1,
            is_power_of_two(n as nat) == is_power_of_two(m as nat),
        decreases m,
    {
        m = m / 2;
    }
    m == 1
}

/// Hash of a key: what the standard hasher computes from the key's
/// bytes.  It is a fixed function of the bytes, so every lookup of a
/// key lands in the shard its write chose.
pub open spec fn spec_hash_of(k: Seq<u8>) -> u64 {
    DefaultHasher::spec_finish(seq![k])
}

/// The shard a key lives in: the low bits of its hash.
pub open spec fn spec_shard_of(k: Seq<u8>, shard_count: usize) -> int
    recommends
        shard_count >= 1,
{
    (spec_hash_of(k) & ((shard_count - 1) as u64)) as int
}

proof fn lemma_shard_of_bound(k: Seq<u8>, shard_count: usize)
    requires
        shard_count >= 1,
    ensures
        0 <= spec_shard_of(k, shard_count) < shard_count,
{
    let h = spec_hash_of(k);
    let m = (shard_count - 1) as u64;
    assert(h & m <= m) by (bit_vector);
}

/// Route a key to its shard.
pub fn shard_index_of(key: &Vec<u8>, shard_count: usize) -> (i: usize)
    requires
        shard_count >= 1,
    ensures
        i as int == spec_shard_of(key@, shard_count),
        i < shard_count,
{
    let mut hasher = DefaultHasher::new();
    hasher.write(key.as_slice());
    let hash = hasher.finish();
    let mask = (shard_count - 1) as u64;
    proof {
        assert(hasher@ =~= seq![key@]);
        lemma_shard_of_bound(key@, shard_count);
        assert(hash & mask <= mask) by (bit_vector);
    }
    (hash & mask) as usize
}

/// The empty key/value model.
pub open spec fn empty_kv() -> Map<Seq<u8>, (Seq<u8>, u64)> {
    Map::empty()
}

/// The sharded store: a fixed fan-out of independently usable
/// shards.  `capacity` is an initial sizing hint, not a cap.
#[derive(Debug)]
pub struct Storage {
    capacity: usize,
    shard_count: usize,
    shards: Vec<Shard>,
}

impl View for Storage {
    type V = Map<Seq<u8>, (Seq<u8>, u64)>;

    /// The store, seen as one map from key bytes to value bytes and
    /// deadline, each key read from the shard that owns it.
    closed spec fn view(&self) -> Map<Seq<u8>, (Seq<u8>, u64)> {
        Map::new(
            |k: Seq<u8>|
                0 <= spec_shard_of(k, self.shard_count) < self.shards@.len()
                    && self.shards@[spec_shard_of(k, self.shard_count)].contents().contains_key(k),
            |k: Seq<u8>| self.shards@[spec_shard_of(k, self.shard_count)].contents()[k],
        )
    }
}

/// The effect of deleting a list of keys, in order: each key that is
/// present leaves the map and counts once.
pub open spec fn del_fold(m: Map<Seq<u8>, (Seq<u8>, u64)>, keys: Seq<Seq<u8>>) -> (
    Map<Seq<u8>, (Seq<u8>, u64)>,
    int,
)
    decreases keys.len(),
{
    if keys.len() == 0 {
        (m, 0)
    } else {
        let folded = del_fold(m, keys.drop_last());
        if folded.0.contains_key(keys.last()) {
            (folded.0.remove(keys.last()), folded.1 + 1)
        } else {
            folded
        }
    }
}

/// The surviving part of an eviction step: nothing changes value,
/// and only an expired entry can leave.
proof fn lemma_evict_step_facts(c: Map<Seq<u8>, (Seq<u8>, u64)>, ix: Seq<(u64, Seq<u8>)>, now: u64)
    requires
        forall|j: int| 0 <= j < ix.len() ==> (#[trigger] ix[j]).0 > 0,
    ensures
        ({
            let c1 = evict_step(c, ix, now).0;
            &&& forall|k: Seq<u8>| #[trigger] c1.contains_key(k) ==> c.contains_key(k) && c1[k]
                == c[k]
            &&& forall|k: Seq<u8>| #[trigger]
                c.contains_key(k) && (c[k].1 == 0 || c[k].1 >= now) ==> c1.contains_key(k) && c1[k]
                    == c[k]
            &&& forall|k: Seq<u8>| #[trigger] c.contains_key(k) && !c1.contains_key(k) ==> c[k].1
                != 0 && c[k].1 < now
        }),
{
    if ix.len() > 0 {
        lemma_max_deadline_idx(ix);
    }
}

impl Storage {
    pub closed spec fn spec_shard_count(&self) -> usize {
        self.shard_count
    }

    pub closed spec fn spec_capacity(&self) -> usize {
        self.capacity
    }

    /// The store's invariant: a power-of-two fan-out, well-formed
    /// shards, and every key sitting in the shard its hash selects.
    pub closed spec fn wf(&self) -> bool {
        &&& self.shards@.len() == self.shard_count
        &&& self.shard_count >= 1
        &&& is_power_of_two(self.shard_count as nat)
        &&& forall|i: int| 0 <= i < self.shards@.len() ==> (#[trigger] self.shards@[i]).wf()
        &&& forall|i: int, k: Seq<u8>|
            0 <= i < self.shards@.len() && #[trigger] self.shards@[i].contents().contains_key(k)
                ==> spec_shard_of(k, self.shard_count) == i
    }

    /// Create a store with the given fan-out, which must be a power
    /// of two.
    pub fn new(capacity: usize, shard_count: usize) -> (r: Storage)
        requires
            is_power_of_two(shard_count as nat),
        ensures
            r.wf(),
            r@ == empty_kv(),
            r.spec_shard_count() == shard_count,
            r.spec_capacity() == capacity,
    {
        proof {
            assert(shard_count >= 1);
        }
        let mut shards: Vec<Shard> = Vec::new();
        let mut i: usize = 0;
        while i < shard_count
            invariant
                i <= shard_count,
                shards@.len() == i,
                forall|j: int| 0 <= j < i ==> (#[trigger] shards@[j]).wf(),
                forall|j: int|
                    0 <= j < i ==> (#[trigger] shards@[j]).contents() == Map::<
                        Seq<u8>,
                        (Seq<u8>, u64),
                    >::empty(),
            decreases shard_count - i,
        {
            shards.push(Shard::new());
            i = i + 1;
        }
        let r = Storage { capacity, shard_count, shards };
        proof {
            assert forall|k: Seq<u8>| !r@.contains_key(k) by {
                let si = spec_shard_of(k, shard_count);
                if 0 <= si < r.shards@.len() {
                    assert(r.shards@[si].contents() == Map::<Seq<u8>, (Seq<u8>, u64)>::empty());
                }
            }
            assert(r@ =~= empty_kv());
        }
        r
    }

    /// Create a store, rejecting a fan-out that is not a power of
    /// two.
    pub fn try_new(capacity: usize, shard_count: usize) -> (r: Option<Storage>)
        ensures
            r is Some <==> is_power_of_two(shard_count as nat),
            r matches Some(s) ==> s.wf() && s@ == empty_kv() && s.spec_shard_count() == shard_count
                && s.spec_capacity() == capacity,
    {
        if check_power_of_two(shard_count) {
            Some(Storage::new(capacity, shard_count))
        } else {
            None
        }
    }

    fn get_shard(&self, key: &Vec<u8>) -> (i: usize)
        requires
            self.wf(),
        ensures
            i as int == spec_shard_of(key@, self.spec_shard_count()),
            i < self.shards@.len(),
    {
        shard_index_of(key, self.shard_count)
    }

    /// Install or overwrite an entry.  Entries that were live at
    /// `now_ms` survive untouched; at most one expired entry may be
    /// lazily dropped on the way; the previous value under the key
    /// comes back whenever that entry was live.
    pub fn set_kv(&mut self, key: &Vec<u8>, value: &Vec<u8>, ttl_ms: u64, now_ms: u64) -> (prev:
        Option<Vec<u8>>)
        requires
            old(self).wf(),
        ensures
            final(self).wf(),
            final(self).spec_shard_count() == old(self).spec_shard_count(),
            final(self).spec_capacity() == old(self).spec_capacity(),
            final(self)@.contains_key(key@),
            final(self)@[key@] == (value@, spec_deadline(ttl_ms, now_ms)),
            forall|k: Seq<u8>|
                k != key@ && #[trigger] final(self)@.contains_key(k) ==> old(self)@.contains_key(k)
                    && final(self)@[k] == old(self)@[k],
            forall|k: Seq<u8>|
                k != key@ && #[trigger] old(self)@.contains_key(k) && (old(self)@[k].1 == 0 || old(
                    self,
                )@[k].1 >= now_ms) ==> final(self)@.contains_key(k),
            match prev {
                Some(v) => old(self)@.contains_key(key@) && v@ == old(self)@[key@].0,
                None => !old(self)@.contains_key(key@) || (old(self)@[key@].1 != 0 && old(
                    self,
                )@[key@].1 < now_ms),
            },
            old(self)@.contains_key(key@) && (old(self)@[key@].1 == 0 || old(self)@[key@].1
                >= now_ms) ==> (prev matches Some(v) && v@ == old(self)@[key@].0),
    {
        let i = self.get_shard(key);
        let ghost oldst = *self;
        let sh = &mut self.shards[i];
        let prev = sh.set_entry(key, value, ttl_ms, now_ms);
        proof {
            let ii = i as int;
            let count = oldst.shard_count;
            let c0 = oldst.shards@[ii].contents();
            let ix0 = oldst.shards@[ii].index();
            let c1 = evict_step(c0, ix0, now_ms).0;
            let dl = spec_deadline(ttl_ms, now_ms);
            let newc = self.shards@[ii].contents();
            assert(newc == c1.insert(key@, (value@, dl)));
            lemma_evict_step_facts(c0, ix0, now_ms);
            // The store invariant survives.
            assert forall|j: int, k: Seq<u8>|
                0 <= j < self.shards@.len() && #[trigger] self.shards@[j].contents().contains_key(
                    k,
                ) implies spec_shard_of(k, count) == j by {
                if j == ii {
                    if k != key@ {
                        assert(c1.contains_key(k));
                        assert(c0.contains_key(k));
                    }
                } else {
                    assert(self.shards@[j] == oldst.shards@[j]);
                }
            }
            assert forall|j: int| 0 <= j < self.shards@.len() implies (
            #[trigger] self.shards@[j]).wf() by {
                if j != ii {
                    assert(self.shards@[j] == oldst.shards@[j]);
                }
            }
            assert(self.wf());
            // The new entry is in the view.
            lemma_shard_of_bound(key@, count);
            assert(final(self)@.contains_key(key@));
            assert(final(self)@[key@] == (value@, dl));
            // Other keys.
            assert forall|k: Seq<u8>|
                k != key@ && #[trigger] self@.contains_key(k) implies oldst@.contains_key(k)
                && self@[k] == oldst@[k] by {
                lemma_shard_of_bound(k, count);
                let si = spec_shard_of(k, count);
                if si == ii {
                    assert(newc.contains_key(k));
                    assert(c1.contains_key(k));
                    assert(c0.contains_key(k));
                } else {
                    assert(self.shards@[si] == oldst.shards@[si]);
                }
            }
            assert forall|k: Seq<u8>|
                k != key@ && #[trigger] oldst@.contains_key(k) && (oldst@[k].1 == 0 || oldst@[k].1
                    >= now_ms) implies self@.contains_key(k) by {
                let si = spec_shard_of(k, count);
                lemma_shard_of_bound(k, count);
                if si == ii {
                    assert(c0.contains_key(k));
                    assert(c0[k] == oldst@[k]);
                    assert(c1.contains_key(k));
                } else {
                    assert(self.shards@[si] == oldst.shards@[si]);
                }
            }
            // The returned value.
            assert(oldst@.contains_key(key@) == c0.contains_key(key@));
            if oldst@.contains_key(key@) {
                assert(oldst@[key@] == c0[key@]);
            }
        }
        prev
    }

    /// Read a key: its value if the entry exists and has not
    /// expired, nothing otherwise.
    pub fn get_v(&self, key: &Vec<u8>, now_ms: u64) -> (r: Option<Vec<u8>>)
        requires
            self.wf(),
        ensures
            match r {
                Some(v) => self@.contains_key(key@) && (self@[key@].1 == 0 || self@[key@].1
                    > now_ms) && v@ == self@[key@].0,
                None => !self@.contains_key(key@) || (self@[key@].1 != 0 && self@[key@].1
                    <= now_ms),
            },
    {
        let i = self.get_shard(key);
        proof {
            lemma_shard_of_bound(key@, self.shard_count);
        }
        match self.shards[i].get_value_by_key(key) {
            Some(e) => {
                if e.1 == 0 || e.1 > now_ms {
                    Some(clone_bytes(&e.0))
                } else {
                    None
                }
            },
            None => None,
        }
    }

    /// Delete a list of keys; each key that existed leaves the store
    /// and counts once.
    pub fn del_entries(&mut self, keys: &Vec<Vec<u8>>) -> (count: usize)
        requires
            old(self).wf(),
        ensures
            final(self).wf(),
            final(self).spec_shard_count() == old(self).spec_shard_count(),
            final(self).spec_capacity() == old(self).spec_capacity(),
            final(self)@ == del_fold(old(self)@, keys@.map_values(|k: Vec<u8>| k@)).0,
            count as int == del_fold(old(self)@, keys@.map_values(|k: Vec<u8>| k@)).1,
    {
        let ghost kv = keys@.map_values(|k: Vec<u8>| k@);
        let mut count: usize = 0;
        let mut idx: usize = 0;
        proof {
            assert(kv.take(0) =~= Seq::<Seq<u8>>::empty());
        }
        while idx < keys.len()
            invariant
                idx <= keys@.len(),
                count <= idx,
                kv == keys@.map_values(|k: Vec<u8>| k@),
                kv.len() == keys@.len(),
                self.wf(),
                self.spec_shard_count() == old(self).spec_shard_count(),
                self.spec_capacity() == old(self).spec_capacity(),
                self@ == del_fold(old(self)@, kv.take(idx as int)).0,
                count as int == del_fold(old(self)@, kv.take(idx as int)).1,
            decreases keys@.len() - idx,
        {
            let key = &keys[idx];
            let i = self.get_shard(key);
            let ghost pre = *self;
            let sh = &mut self.shards[i];
            let r = sh.del_entry(key);
            proof {
                let ii = i as int;
                let count_s = pre.shard_count;
                let c0 = pre.shards@[ii].contents();
                let newc = self.shards@[ii].contents();
                assert(newc == c0.remove(key@));
                // Invariant survives.
                assert forall|j: int, k: Seq<u8>|
                    0 <= j < self.shards@.len()
                        && #[trigger] self.shards@[j].contents().contains_key(k) implies
                    spec_shard_of(k, count_s) == j by {
                    if j == ii {
                        assert(c0.contains_key(k));
                    } else {
                        assert(self.shards@[j] == pre.shards@[j]);
                    }
                }
                assert forall|j: int| 0 <= j < self.shards@.len() implies (
                #[trigger] self.shards@[j]).wf() by {
                    if j != ii {
                        assert(self.shards@[j] == pre.shards@[j]);
                    }
                }
                assert(self.wf());
                // The view loses exactly this key.
                lemma_shard_of_bound(key@, count_s);
                assert forall|k: Seq<u8>| #[trigger]
                    self@.contains_key(k) == (pre@.contains_key(k) && k != key@) by {
                    lemma_shard_of_bound(k, count_s);
                    let si = spec_shard_of(k, count_s);
                    if si != ii {
                        assert(self.shards@[si] == pre.shards@[si]);
                    }
                }
                assert forall|k: Seq<u8>| #[trigger]
                    self@.contains_key(k) implies self@[k] == pre@[k] by {
                    lemma_shard_of_bound(k, count_s);
                    let si = spec_shard_of(k, count_s);
                    if si != ii {
                        assert(self.shards@[si] == pre.shards@[si]);
                    }
                }
                assert(self@ =~= pre@.remove(key@));
                assert(pre@.contains_key(key@) == c0.contains_key(key@));
                if !pre@.contains_key(key@) {
                    assert(self@ =~= pre@);
                }
                // One step of the fold.
                assert(kv.take(idx + 1).drop_last() =~= kv.take(idx as int));
                assert(kv.take(idx + 1).last() == kv[idx as int]);
                assert(kv[idx as int] == key@);
            }
            count = count + r;
            idx = idx + 1;
        }
        proof {
            assert(kv.take(keys@.len() as int) =~= kv);
        }
        count
    }
}

/// TTL expiry: an entry stored with a positive TTL carries the
/// deadline `spec_deadline(ttl, now)`, and at any time at or past
/// that deadline it is expired, so `get_v` must report it absent.
pub proof fn lemma_ttl_expiry(
    m: Map<Seq<u8>, (Seq<u8>, u64)>,
    key: Seq<u8>,
    value: Seq<u8>,
    ttl_ms: u64,
    now_ms: u64,
    later_ms: u64,
)
    requires
        ttl_ms > 0,
        later_ms >= spec_deadline(ttl_ms, now_ms),
        m.contains_key(key),
        m[key] == (value, spec_deadline(ttl_ms, now_ms)),
    ensures
        m[key].1 != 0 && m[key].1 <= later_ms,
{
}

/// Overwrite: an entry stored without expiry, or whose deadline has
/// not passed by the time of the next write, is still live then, so
/// the second `set_kv` returns its value and replaces it.
pub proof fn lemma_overwrite_live(
    m: Map<Seq<u8>, (Seq<u8>, u64)>,
    key: Seq<u8>,
    value: Seq<u8>,
    ttl_ms: u64,
    now_ms: u64,
    later_ms: u64,
)
    requires
        m.contains_key(key),
        m[key] == (value, spec_deadline(ttl_ms, now_ms)),
        ttl_ms == 0 || spec_deadline(ttl_ms, now_ms) >= later_ms,
    ensures
        m[key].1 == 0 || m[key].1 >= later_ms,
        m[key].0 == value,
{
}

/// Writes to different keys commute: the store's model ends the same
/// whichever order they reach it in.
pub proof fn lemma_set_commutes(
    m: Map<Seq<u8>, (Seq<u8>, u64)>,
    k1: Seq<u8>,
    e1: (Seq<u8>, u64),
    k2: Seq<u8>,
    e2: (Seq<u8>, u64),
)
    requires
        k1 != k2,
    ensures
        m.insert(k1, e1).insert(k2, e2) == m.insert(k2, e2).insert(k1, e1),
{
    assert(m.insert(k1, e1).insert(k2, e2) =~= m.insert(k2, e2).insert(k1, e1));
}

/// A write and a delete of different keys commute as well, so any
/// interleaving of per-key operations reaches the state of some
/// serial order of them.
pub proof fn lemma_set_del_commutes(
    m: Map<Seq<u8>, (Seq<u8>, u64)>,
    k1: Seq<u8>,
    e1: (Seq<u8>, u64),
    k2: Seq<u8>,
)
    requires
        k1 != k2,
    ensures
        m.insert(k1, e1).remove(k2) == m.remove(k2).insert(k1, e1),
{
    assert(m.insert(k1, e1).remove(k2) =~= m.remove(k2).insert(k1, e1));
}

} // verus!
