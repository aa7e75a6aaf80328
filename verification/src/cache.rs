//! A bounded key-value store that forgets the least recently used entry first.
//!
//! [`CacheModel`] is the mathematical content of a cache: its capacity and its
//! entries in order of use. [`BoundedCache`] is the executable store; every
//! operation on it is specified as the corresponding operation on its model.

use vstd::prelude::*;
use vstd::hash_map::StringHashMap;
use crate::chain::{CacheEntry, NONE, chain, lemma_unlink, lemma_link, lemma_move};

verus! {

/// The content of a cache: the capacity it was built with, and its entries as
/// `(key, value)` pairs ordered from the least recently used (index 0) to the
/// most recently used (last index).
pub struct CacheModel {
    pub capacity: nat,
    pub entries: Seq<(Seq<char>, Seq<char>)>,
}

impl CacheModel {
    /// An empty cache of the given capacity.
    pub open spec fn empty(capacity: nat) -> CacheModel {
        CacheModel { capacity, entries: Seq::empty() }
    }

    /// No key occurs twice, and the entries fit the capacity.
    pub open spec fn wf(self) -> bool {
        &&& self.entries.len() <= self.capacity
        &&& forall|i: int, j: int|
            0 <= i < j < self.entries.len() ==> (#[trigger] self.entries[i]).0 != (
            #[trigger] self.entries[j]).0
    }

    /// Whether an entry for `key` is present.
    pub open spec fn holds(self, key: Seq<char>) -> bool {
        exists|i: int| 0 <= i < self.entries.len() && (#[trigger] self.entries[i]).0 == key
    }

    /// The position of the entry for `key`, counted from the least recently
    /// used one. Meaningful only when the key is held.
    pub open spec fn rank(self, key: Seq<char>) -> int {
        choose|i: int| 0 <= i < self.entries.len() && (#[trigger] self.entries[i]).0 == key
    }

    /// The value stored under `key`, if any.
    pub open spec fn lookup(self, key: Seq<char>) -> Option<Seq<char>> {
        if self.holds(key) {
            Some(self.entries[self.rank(key)].1)
        } else {
            None
        }
    }

    /// The cache after `key` was used: its entry, if present, becomes the most
    /// recently used one; every other entry keeps its relative order.
    pub open spec fn touch(self, key: Seq<char>) -> CacheModel {
        if self.holds(key) {
            let r = self.rank(key);
            CacheModel { entries: self.entries.remove(r).push(self.entries[r]), ..self }
        } else {
            self
        }
    }

    /// The cache without the entry for `key`.
    pub open spec fn remove(self, key: Seq<char>) -> CacheModel {
        if self.holds(key) {
            CacheModel { entries: self.entries.remove(self.rank(key)), ..self }
        } else {
            self
        }
    }

    /// The cache after storing `value` under `key`.
    ///
    /// A cache of capacity zero stores nothing. Otherwise any previous entry
    /// for `key` is dropped, then, if the cache is still full, the least
    /// recently used entry is evicted, and the new pair becomes the most
    /// recently used entry.
    pub open spec fn put(self, key: Seq<char>, value: Seq<char>) -> CacheModel {
        if self.capacity == 0 {
            self
        } else {
            let kept = self.remove(key).entries;
            let room = if kept.len() >= self.capacity {
                kept.drop_first()
            } else {
                kept
            };
            CacheModel { entries: room.push((key, value)), ..self }
        }
    }

    /// The cache after storing each pair of `pairs` in turn.
    pub open spec fn put_all(self, pairs: Seq<(Seq<char>, Seq<char>)>) -> CacheModel
        decreases pairs.len(),
    {
        if pairs.len() == 0 {
            self
        } else {
            self.put_all(pairs.drop_last()).put(pairs.last().0, pairs.last().1)
        }
    }

    /// In a well-formed cache a key is found at exactly one position.
    pub proof fn lemma_rank_unique(self, key: Seq<char>, i: int)
        requires
            self.wf(),
            0 <= i < self.entries.len(),
            self.entries[i].0 == key,
        ensures
            self.holds(key),
            self.rank(key) == i,
            self.lookup(key) == Some(self.entries[i].1),
    {
        let r = self.rank(key);
        if r < i {
            assert(self.entries[r].0 != self.entries[i].0);
        } else if i < r {
            assert(self.entries[i].0 != self.entries[r].0);
        }
    }

    /// Using a key keeps the cache well formed and changes neither which keys
    /// are held nor any value; afterwards the key is the most recently used.
    pub proof fn lemma_touch(self, key: Seq<char>)
        requires
            self.wf(),
        ensures
            self.touch(key).wf(),
            self.touch(key).entries.len() == self.entries.len(),
            forall|k: Seq<char>| self.touch(key).lookup(k) == self.lookup(k),
            self.holds(key) ==> self.touch(key).entries.last() == (
                key,
                self.lookup(key).unwrap(),
            ),
    {
        let after = self.touch(key);
        if self.holds(key) {
            let r = self.rank(key);
            let n = self.entries.len() as int;
            assert forall|i: int| 0 <= i < n implies #[trigger] after.entries[i] == self.entries[if i
                < r {
                i
            } else if i < n - 1 {
                i + 1
            } else {
                r
            }] by {}
            assert forall|k: Seq<char>| after.lookup(k) == self.lookup(k) by {
                if self.holds(k) {
                    let i = self.rank(k);
                    let j = if i < r {
                        i
                    } else if i == r {
                        n - 1
                    } else {
                        i - 1
                    };
                    assert(after.entries[j] == self.entries[i]);
                    after.lemma_rank_unique(k, j);
                } else if after.holds(k) {
                    let j = after.rank(k);
                    let i = if j < r {
                        j
                    } else if j < n - 1 {
                        j + 1
                    } else {
                        r
                    };
                    assert(self.entries[i].0 == k);
                }
            }
        }
    }

    /// Removing a key keeps the cache well formed, forgets that key and
    /// leaves every other key with its value.
    pub proof fn lemma_remove(self, key: Seq<char>)
        requires
            self.wf(),
        ensures
            self.remove(key).wf(),
            !self.remove(key).holds(key),
            forall|k: Seq<char>| k != key ==> self.remove(key).lookup(k) == self.lookup(k),
            self.remove(key).entries.len() == if self.holds(key) {
                self.entries.len() - 1
            } else {
                self.entries.len() as int
            },
    {
        let after = self.remove(key);
        if self.holds(key) {
            let r = self.rank(key);
            assert forall|i: int| 0 <= i < after.entries.len() implies #[trigger] after.entries[i]
                == self.entries[if i < r {
                i
            } else {
                i + 1
            }] by {}
            assert forall|k: Seq<char>| k != key implies after.lookup(k) == self.lookup(k) by {
                if self.holds(k) {
                    let i = self.rank(k);
                    let j = if i < r {
                        i
                    } else {
                        i - 1
                    };
                    assert(after.entries[j] == self.entries[i]);
                    after.lemma_rank_unique(k, j);
                } else if after.holds(k) {
                    let j = after.rank(k);
                    let i = if j < r {
                        j
                    } else {
                        j + 1
                    };
                    assert(self.entries[i].0 == k);
                }
            }
            if after.holds(key) {
                let j = after.rank(key);
                let i = if j < r {
                    j
                } else {
                    j + 1
                };
                self.lemma_rank_unique(key, i);
            }
        }
    }

    /// Storing a pair keeps the cache well formed and within its capacity.
    /// With room for at least one entry the key is then held with the new
    /// value as the most recently used entry, and at most one other key, the
    /// least recently used one, is gone.
    pub proof fn lemma_put(self, key: Seq<char>, value: Seq<char>)
        requires
            self.wf(),
        ensures
            self.put(key, value).wf(),
            self.put(key, value).capacity == self.capacity,
            self.capacity == 0 ==> self.put(key, value) == self,
            self.capacity > 0 ==> self.put(key, value).lookup(key) == Some(value),
            self.capacity > 0 ==> self.put(key, value).entries.last() == (key, value),
            forall|k: Seq<char>|
                k != key && self.put(key, value).holds(k) ==> self.put(key, value).lookup(k)
                    == self.lookup(k),
            forall|k: Seq<char>|
                k != key && self.holds(k) && !self.put(key, value).holds(k) ==> {
                    &&& !self.holds(key)
                    &&& self.entries.len() == self.capacity
                    &&& self.entries[0].0 == k
                },
    {
        let after = self.put(key, value);
        if self.capacity > 0 {
            let base = self.remove(key);
            self.lemma_remove(key);
            let kept = base.entries;
            let shift: int = if kept.len() >= self.capacity {
                1
            } else {
                0
            };
            let n = after.entries.len() as int;
            assert forall|i: int| 0 <= i < n - 1 implies #[trigger] after.entries[i] == kept[i
                + shift] by {}
            assert(after.entries[n - 1] == (key, value));
            assert forall|i: int, j: int| 0 <= i < j < n implies (#[trigger] after.entries[i]).0 != (
            #[trigger] after.entries[j]).0 by {
                if j < n - 1 {
                    assert(kept[i + shift].0 != kept[j + shift].0);
                } else {
                    if kept[i + shift].0 == key {
                        assert(base.holds(key));
                    }
                }
            }
            after.lemma_rank_unique(key, n - 1);
            assert forall|k: Seq<char>| k != key && after.holds(k) implies after.lookup(k)
                == self.lookup(k) by {
                let j = after.rank(k);
                assert(after.entries[j] == kept[j + shift]);
                base.lemma_rank_unique(k, j + shift);
            }
            assert forall|k: Seq<char>| k != key && self.holds(k) && !after.holds(k) implies {
                &&& !self.holds(key)
                &&& self.entries.len() == self.capacity
                &&& self.entries[0].0 == k
            } by {
                assert(base.lookup(k) == self.lookup(k));
                let i = base.rank(k);
                if i >= shift {
                    assert(after.entries[i - shift] == kept[i]);
                    assert(after.holds(k));
                }
                assert(i == 0 && shift == 1);
                if self.holds(key) {
                    assert(kept.len() == self.entries.len() - 1);
                } else {
                    assert(base == self);
                }
            }
        }
    }

    /// Storing a new key in a full cache evicts exactly the least recently
    /// used entry: the others move up by one place and the new pair comes last.
    pub proof fn lemma_put_into_full(self, key: Seq<char>, value: Seq<char>)
        requires
            self.wf(),
            self.capacity > 0,
            self.entries.len() == self.capacity,
            !self.holds(key),
        ensures
            self.put(key, value).entries == self.entries.drop_first().push((key, value)),
            self.put(key, value).entries.len() == self.capacity,
    {
    }

    /// Storing pairs with pairwise different keys in an empty cache leaves the
    /// most recent `capacity` of them, in the order in which they were
    /// stored; all earlier ones have been evicted, oldest first.
    pub proof fn lemma_fill(capacity: nat, pairs: Seq<(Seq<char>, Seq<char>)>)
        requires
            forall|i: int, j: int|
                0 <= i < j < pairs.len() ==> (#[trigger] pairs[i]).0 != (#[trigger] pairs[j]).0,
        ensures
            CacheModel::empty(capacity).put_all(pairs).wf(),
            CacheModel::empty(capacity).put_all(pairs).capacity == capacity,
            CacheModel::empty(capacity).put_all(pairs).entries == if pairs.len() <= capacity {
                pairs
            } else {
                pairs.subrange(pairs.len() - capacity, pairs.len() as int)
            },
        decreases pairs.len(),
    {
        let start = CacheModel::empty(capacity);
        if pairs.len() > 0 {
            let front = pairs.drop_last();
            let before = start.put_all(front);
            let last = pairs.last();
            Self::lemma_fill(capacity, front);
            before.lemma_put(last.0, last.1);
            let m = front.len() as int;
            let low: int = if m <= capacity {
                0
            } else {
                m - capacity
            };
            assert(before.entries == front.subrange(low, m));
            if before.holds(last.0) {
                let r = before.rank(last.0);
                assert(before.entries[r] == pairs[low + r]);
                assert(pairs[low + r].0 != pairs[m].0);
            }
            assert(before.remove(last.0) == before);
            if capacity > 0 {
                assert(before.put(last.0, last.1).entries =~= if pairs.len() <= capacity {
                    pairs
                } else {
                    pairs.subrange(pairs.len() - capacity, pairs.len() as int)
                });
            } else {
                assert(before.entries =~= pairs.subrange(pairs.len() - capacity, pairs.len() as int));
            }
        } else {
            assert(start.put_all(pairs).entries =~= pairs);
        }
    }
}

/// A store of at most `capacity` pairs of strings with least-recently-used
/// eviction. A capacity of zero disables caching: nothing is ever stored.
///
/// The entries live in a slab and are chained, through their slot numbers,
/// from the least to the most recently used one; an index maps each key to
/// its slot. Lookup, insertion, refresh and eviction therefore take constant
/// time, apart from hashing the key.
pub struct BoundedCache {
    capacity: usize,
    slab: Vec<CacheEntry>,
    oldest: usize,
    newest: usize,
    index: StringHashMap<usize>,
    order: Ghost<Seq<int>>,
}

impl View for BoundedCache {
    type V = CacheModel;

    closed spec fn view(&self) -> CacheModel {
        CacheModel {
            capacity: self.capacity as nat,
            entries: self.content(),
        }
    }
}

/// The text of an optional string.
pub open spec fn text_of(value: Option<String>) -> Option<Seq<char>> {
    match value {
        Some(s) => Some(s@),
        None => None,
    }
}

impl BoundedCache {
    /// The entries are chained in the order that `order` gives.
    closed spec fn chained(&self) -> bool {
        chain(self.slab@, self.order@, self.oldest, self.newest)
    }

    /// What the chain holds, from the least to the most recently used pair.
    closed spec fn content(&self) -> Seq<(Seq<char>, Seq<char>)> {
        Seq::new(self.order@.len(), |i: int| self.slab@[self.order@[i]]@)
    }

    /// Whether `other` has the same slab as this cache, but for the links.
    closed spec fn same_pairs(&self, other: BoundedCache) -> bool {
        &&& self.slab@.len() == other.slab@.len()
        &&& forall|s: int|
            0 <= s < self.slab@.len() ==> (#[trigger] self.slab@[s]).key == other.slab@[s].key
                && self.slab@[s].value == other.slab@[s].value
    }

    /// Whether `slot` is on the chain.
    closed spec fn listed(&self, slot: int) -> bool {
        exists|p: int| 0 <= p < self.order@.len() && #[trigger] self.order@[p] == slot
    }

    /// The place of `slot` on the chain.
    closed spec fn place(&self, slot: int) -> int {
        choose|p: int| 0 <= p < self.order@.len() && #[trigger] self.order@[p] == slot
    }

    /// The index knows exactly the keys in the slab, each with its slot.
    closed spec fn indexed(&self) -> bool {
        &&& forall|k: Seq<char>| #[trigger]
            self.index@.contains_key(k) ==> self.index@[k] < self.slab@.len()
                && self.slab@[self.index@[k] as int].key@ == k
        &&& forall|s: int|
            0 <= s < self.slab@.len() ==> self.index@.contains_key((#[trigger] self.slab@[s]).key@)
                && self.index@[self.slab@[s].key@] == s
    }

    /// Whether the cache is sound but for the slot `slot`, which is off the
    /// chain and unknown to the index.
    closed spec fn holed(&self, slot: int) -> bool {
        &&& self.chained()
        &&& 0 <= slot < self.slab@.len()
        &&& self.order@.len() == self.slab@.len() - 1
        &&& self.slab@.len() - 1 <= self.capacity
        &&& forall|i: int| 0 <= i < self.order@.len() ==> #[trigger] self.order@[i] != slot
        &&& forall|s: int| 0 <= s < self.slab@.len() && s != slot ==> #[trigger] self.listed(s)
        &&& forall|k: Seq<char>| #[trigger]
            self.index@.contains_key(k) ==> self.index@[k] < self.slab@.len() && self.index@[k]
                != slot && self.slab@[self.index@[k] as int].key@ == k
        &&& forall|s: int|
            0 <= s < self.slab@.len() && s != slot ==> self.index@.contains_key(
                (#[trigger] self.slab@[s]).key@,
            ) && self.index@[self.slab@[s].key@] == s
    }

    /// The invariant of the representation: every slot of the slab is on the
    /// chain, the slab fits the capacity, and the index is exact.
    pub closed spec fn sound(&self) -> bool {
        &&& self.chained()
        &&& self.indexed()
        &&& self.order@.len() == self.slab@.len()
        &&& self.slab@.len() <= self.capacity
        &&& forall|s: int| 0 <= s < self.slab@.len() ==> #[trigger] self.listed(s)
    }

    /// The invariant of the store: its representation is sound and its
    /// content is a well-formed model.
    pub open spec fn wf(&self) -> bool {
        self.sound() && self@.wf()
    }

    /// An empty cache that will hold at most `capacity` entries. Every
    /// capacity is valid; zero disables caching.
    pub fn new(capacity: usize) -> (cache: BoundedCache)
        ensures
            cache.wf(),
            cache@ == CacheModel::empty(capacity as nat),
    {
        let cache = BoundedCache {
            capacity,
            slab: Vec::new(),
            oldest: NONE,
            newest: NONE,
            index: StringHashMap::new(),
            order: Ghost(Seq::empty()),
        };
        assert(cache@.entries =~= Seq::empty());
        cache
    }

    /// The largest number of entries the cache keeps.
    pub fn capacity(&self) -> (capacity: usize)
        ensures
            capacity == self@.capacity,
    {
        self.capacity
    }

    /// The number of entries currently held.
    pub fn len(&self) -> (len: usize)
        requires
            self.wf(),
        ensures
            len == self@.entries.len(),
    {
        self.slab.len()
    }

    /// Whether `key` is held. The order of use is left as it is.
    pub fn contains(&self, key: &String) -> (held: bool)
        requires
            self.wf(),
        ensures
            held == self@.holds(key@),
    {
        self.find(key).is_some()
    }

    /// Looks `key` up. A hit returns a copy of the stored value and makes the
    /// entry the most recently used one; a miss changes nothing.
    pub fn get(&mut self, key: &String) -> (value: Option<String>)
        requires
            old(self).wf(),
        ensures
            final(self).wf(),
            text_of(value) == old(self)@.lookup(key@),
            final(self)@ == old(self)@.touch(key@),
    {
        match self.find(key) {
            Some(slot) => {
                let ghost place = self@.rank(key@);
                let value = self.slab[slot].value.clone();
                self.refresh(slot, Ghost(place));
                proof {
                    self.lemma_sound();
                }
                Some(value)
            },
            None => None,
        }
    }

    /// Stores `value` under `key` as the most recently used entry, replacing
    /// any earlier value for the key. When that would exceed the capacity, the
    /// least recently used entry is evicted. With capacity zero nothing is
    /// stored.
    pub fn put(&mut self, key: String, value: String)
        requires
            old(self).wf(),
        ensures
            final(self).wf(),
            final(self)@ == old(self)@.put(key@, value@),
    {
        if self.capacity == 0 {
            return ;
        }
        match self.find(&key) {
            Some(slot) => {
                self.overwrite(slot, value, Ghost(self@.rank(key@)));
            },
            None => {
                if self.slab.len() >= self.capacity {
                    self.recycle(key, value);
                } else {
                    self.append(key, value);
                }
            },
        }
        proof {
            let start = old(self)@;
            assert(start.entries.remove(0) =~= start.entries.drop_first());
            assert(self@.entries =~= start.put(key@, value@).entries);
            self.lemma_sound();
        }
    }

    /// Deletes the entry for `key`, if there is one.
    pub fn remove(&mut self, key: &String)
        requires
            old(self).wf(),
        ensures
            final(self).wf(),
            final(self)@ == old(self)@.remove(key@),
    {
        let slot = match self.find(key) {
            Some(slot) => slot,
            None => {
                return ;
            },
        };
        let ghost place = self@.rank(key@);
        self.unlink(slot, Ghost(place));
        self.index.remove(key.as_str());
        proof {
            self.lemma_holed(*old(self), slot as int, place);
        }
        self.vacate(slot);
        proof {
            old(self)@.lemma_remove(key@);
            assert(self@.entries =~= old(self)@.remove(key@).entries);
            self.lemma_sound();
        }
    }

    /// The slot of the entry for `key`, if it is held.
    fn find(&self, key: &String) -> (found: Option<usize>)
        requires
            self.wf(),
        ensures
            match found {
                Some(slot) => {
                    &&& self@.holds(key@)
                    &&& slot < self.slab@.len()
                    &&& 0 <= self@.rank(key@) < self.order@.len()
                    &&& self.order@[self@.rank(key@)] == slot
                },
                None => !self@.holds(key@),
            },
    {
        match self.index.get(key.as_str()) {
            Some(slot) => {
                proof {
                    assert(self.index@.contains_key(key@));
                    assert(self.listed(*slot as int));
                    let p = self.place(*slot as int);
                    assert(self@.entries[p].0 == key@);
                    self@.lemma_rank_unique(key@, p);
                }
                Some(*slot)
            },
            None => {
                proof {
                    if self@.holds(key@) {
                        let i = self@.rank(key@);
                        assert(self@.entries[i] == self.slab@[self.order@[i]]@);
                        assert(self.index@.contains_key(self.slab@[self.order@[i]].key@));
                    }
                }
                None
            },
        }
    }

    /// Makes the entry at `slot`, which stands at `place`, the most recently
    /// used one.
    fn refresh(&mut self, slot: usize, Ghost(place): Ghost<int>)
        requires
            old(self).sound(),
            0 <= place < old(self).order@.len(),
            old(self).order@[place] == slot,
        ensures
            final(self).sound(),
            final(self).order@ == old(self).order@.remove(place).push(slot as int),
            final(self).same_pairs(*old(self)),
            final(self).capacity == old(self).capacity,
            final(self).index == old(self).index,
            final(self)@.entries == old(self)@.entries.remove(place).push(old(self)@.entries[place]),
    {
        let ghost before = self.order@;
        self.unlink(slot, Ghost(place));
        proof {
            assert(old(self).chained());
            assert forall|i: int| 0 <= i < self.order@.len() implies self.order@[i] != slot by {
                let ii = if i < place { i } else { i + 1 };
                assert(self.order@[i] == before[ii]);
                assert(before[ii] != before[place]);
            }
        }
        let ghost mid = *self;
        self.link_newest(slot);
        proof {
            assert(self.same_pairs(*old(self))) by {
                assert forall|s: int| 0 <= s < self.slab@.len() implies (#[trigger] self.slab@[s]).key
                    == old(self).slab@[s].key && self.slab@[s].value == old(self).slab@[s].value by {
                    assert(mid.slab@[s].key == old(self).slab@[s].key);
                }
            }
            self.lemma_refreshed(*old(self), place);
        }
    }

    /// Gives the entry at `slot`, which stands at `place`, a new value and
    /// makes it the most recently used one.
    fn overwrite(&mut self, slot: usize, value: String, Ghost(place): Ghost<int>)
        requires
            old(self).sound(),
            0 <= place < old(self).order@.len(),
            old(self).order@[place] == slot,
        ensures
            final(self).sound(),
            final(self).capacity == old(self).capacity,
            final(self).content() == old(self).content().remove(place).push(
                (old(self).content()[place].0, value@),
            ),
    {
        self.refresh(slot, Ghost(place));
        let ghost mid = *self;
        self.slab[slot].value = value;
        proof {
            self.lemma_rewritten(mid, slot as int);
            assert(self.content() =~= old(self).content().remove(place).push(
                (old(self).content()[place].0, value@),
            ));
        }
    }

    /// Stores a pair whose key is not held in a full cache: the slot of the
    /// least recently used entry is given to the new pair, which becomes the
    /// most recently used one.
    fn recycle(&mut self, key: String, value: String)
        requires
            old(self).wf(),
            !old(self)@.holds(key@),
            old(self).slab@.len() >= 1,
        ensures
            final(self).sound(),
            final(self).capacity == old(self).capacity,
            final(self).content() == old(self).content().remove(0).push((key@, value@)),
    {
        let ghost n = self.order@.len() as int;
        let slot = self.oldest;
        self.refresh(slot, Ghost(0));
        let ghost mid = *self;
        self.index.remove(self.slab[slot].key.as_str());
        self.index.insert(key.clone(), slot);
        self.slab[slot].key = key;
        self.slab[slot].value = value;
        proof {
            assert(!mid@.holds(key@)) by {
                if mid@.holds(key@) {
                    let i = mid@.rank(key@);
                    let ii = if i < n - 1 { i + 1 } else { 0 };
                    assert(mid@.entries[i] == old(self)@.entries[ii]);
                }
            }
            self.lemma_replaced(mid, slot as int);
            assert(self.content() =~= old(self).content().remove(0).push((key@, value@)));
        }
    }

    /// Stores a pair whose key is not held in a cache with room: the pair
    /// gets a new slot and becomes the most recently used entry.
    fn append(&mut self, key: String, value: String)
        requires
            old(self).wf(),
            !old(self)@.holds(key@),
            old(self).slab@.len() < old(self).capacity,
        ensures
            final(self).sound(),
            final(self).capacity == old(self).capacity,
            final(self).content() == old(self).content().push((key@, value@)),
    {
        let slot = self.slab.len();
        self.index.insert(key.clone(), slot);
        self.slab.push(CacheEntry { key, value, older: NONE, newer: NONE });
        proof {
            assert forall|i: int| 0 <= i < self.order@.len() implies #[trigger] self.slab@[self.order@[i]]
                == old(self).slab@[self.order@[i]] && self.order@[i] != slot by {
                assert(0 <= old(self).order@[i] < slot);
            }
            assert(self.chained());
        }
        let ghost mid = *self;
        self.link_newest(slot);
        proof {
            assert forall|s: int| 0 <= s < slot implies (#[trigger] self.slab@[s]).key == old(
                self,
            ).slab@[s].key && self.slab@[s].value == old(self).slab@[s].value by {
                assert(mid.slab@[s] == old(self).slab@[s]);
            }
            assert(self.slab@[slot as int].key == mid.slab@[slot as int].key);
            self.lemma_appended(*old(self), key@, value@);
        }
    }

    /// Takes the entry at `slot`, which stands at `place`, off the chain.
    fn unlink(&mut self, slot: usize, Ghost(place): Ghost<int>)
        requires
            old(self).chained(),
            0 <= place < old(self).order@.len(),
            old(self).order@[place] == slot,
        ensures
            final(self).chained(),
            final(self).order@ == old(self).order@.remove(place),
            final(self).same_pairs(*old(self)),
            final(self).index == old(self).index,
            final(self).capacity == old(self).capacity,
    {
        let ghost before = self.slab@;
        let ghost ends = (self.oldest, self.newest);
        let older = self.slab[slot].older;
        let newer = self.slab[slot].newer;
        proof {
            assert(before.len() == self.slab.len());
            let n = self.order@.len() as int;
            if place > 0 {
                assert(0 <= self.order@[place - 1] < before.len());
            }
            if place < n - 1 {
                assert(0 <= self.order@[place + 1] < before.len());
            }
        }
        if older != NONE {
            self.slab[older].newer = newer;
        } else {
            self.oldest = newer;
        }
        if newer != NONE {
            self.slab[newer].older = older;
        } else {
            self.newest = older;
        }
        proof {
            lemma_unlink(
                before,
                self.slab@,
                self.order@,
                place,
                ends,
                (self.oldest, self.newest),
            );
        }
        self.order = Ghost(self.order@.remove(place));
    }

    /// Puts the entry at `slot`, which is off the chain, at its newest end.
    fn link_newest(&mut self, slot: usize)
        requires
            old(self).chained(),
            slot < old(self).slab@.len(),
            forall|i: int| 0 <= i < old(self).order@.len() ==> old(self).order@[i] != slot,
        ensures
            final(self).chained(),
            final(self).order@ == old(self).order@.push(slot as int),
            final(self).same_pairs(*old(self)),
            final(self).index == old(self).index,
            final(self).capacity == old(self).capacity,
    {
        let ghost before = self.slab@;
        let ghost ends = (self.oldest, self.newest);
        let last = self.newest;
        proof {
            assert(before.len() == self.slab.len());
            let n = self.order@.len() as int;
            if n > 0 {
                assert(0 <= self.order@[n - 1] < before.len());
            }
        }
        self.slab[slot].older = last;
        self.slab[slot].newer = NONE;
        if last != NONE {
            self.slab[last].newer = slot;
        } else {
            self.oldest = slot;
        }
        self.newest = slot;
        proof {
            lemma_link(
                before,
                self.slab@,
                self.order@,
                slot as int,
                ends,
                (self.oldest, self.newest),
            );
        }
        self.order = Ghost(self.order@.push(slot as int));
    }

    /// Frees the slot `slot`, which is off the chain and unknown to the
    /// index, by moving the entry of the last slot into it.
    fn vacate(&mut self, slot: usize)
        requires
            old(self).holed(slot as int),
        ensures
            final(self).sound(),
            final(self).content() == old(self).content(),
            final(self).capacity == old(self).capacity,
    {
        let last = self.slab.len() - 1;
        if slot == last {
            let ghost prior = *self;
            self.slab.swap_remove(slot);
            proof {
                assert forall|i: int| 0 <= i < self.order@.len() implies 0 <= #[trigger] self.order@[i]
                    < self.slab@.len() && self.slab@[self.order@[i]] == prior.slab@[self.order@[i]] by {
                    assert(prior.order@[i] != slot);
                    assert(0 <= prior.order@[i] < prior.slab@.len());
                }
                assert(self.chained());
                self.lemma_vacated(prior, slot as int, 0);
            }
        } else {
            self.move_last(slot);
        }
    }

    /// Moves the entry of the last slot into the free slot `slot`, which is
    /// not the last one.
    #[verifier::rlimit(40)]
    fn move_last(&mut self, slot: usize)
        requires
            old(self).holed(slot as int),
            slot != old(self).slab@.len() - 1,
        ensures
            final(self).sound(),
            final(self).content() == old(self).content(),
            final(self).capacity == old(self).capacity,
    {
        let ghost prior = *self;
        let ghost s0 = self.slab@;
        let ghost n = s0.len() as int;
        let last = self.slab.len() - 1;
        let ghost from = prior.place(last as int);
        let older = self.slab[last].older;
        let newer = self.slab[last].newer;
        proof {
            assert(prior.listed(last as int));
            let order = self.order@;
            let m = order.len() as int;
            assert(order[from] == last);
            if from > 0 {
                assert(0 <= order[from - 1] < n);
                assert(order[from - 1] != order[from]);
                assert(order[from - 1] != slot);
            }
            if from < m - 1 {
                assert(0 <= order[from + 1] < n);
                assert(order[from + 1] != order[from]);
                assert(order[from + 1] != slot);
            }
        }
        self.slab.swap_remove(slot);
        let ghost s1 = self.slab@;
        assert forall|t: int| 0 <= t < n - 1 implies #[trigger] s1[t] == (if t == slot {
            s0[n - 1]
        } else {
            s0[t]
        }) by {}
        if older != NONE {
            self.slab[older].newer = slot;
        } else {
            self.oldest = slot;
        }
        let ghost s2 = self.slab@;
        assert forall|t: int| 0 <= t < n - 1 implies (#[trigger] s2[t]).key == s1[t].key && s2[t].value
            == s1[t].value && s2[t].older == s1[t].older && s2[t].newer == (if t == older {
            slot
        } else {
            s1[t].newer
        }) by {}
        if newer != NONE {
            self.slab[newer].older = slot;
        } else {
            self.newest = slot;
        }
        let ghost s3 = self.slab@;
        assert forall|t: int| 0 <= t < n - 1 implies (#[trigger] s3[t]).key == s2[t].key && s3[t].value
            == s2[t].value && s3[t].newer == s2[t].newer && s3[t].older == (if t == newer {
            slot
        } else {
            s2[t].older
        }) by {}
        let moved = self.slab[slot].key.clone();
        self.index.insert(moved, slot);
        proof {
            assert forall|t: int| 0 <= t < n - 1 implies (#[trigger] s3[t]).older == (if t
                == s0.last().newer {
                slot
            } else if t == slot {
                s0.last().older
            } else {
                s0[t].older
            }) by {
                assert(s3[t].older == if t == newer { slot } else { s2[t].older });
                assert(s2[t].older == s1[t].older);
            }
            assert forall|t: int| 0 <= t < n - 1 implies (#[trigger] s3[t]).newer == (if t
                == s0.last().older {
                slot
            } else if t == slot {
                s0.last().newer
            } else {
                s0[t].newer
            }) by {
                assert(s3[t].newer == s2[t].newer);
                assert(s2[t].newer == if t == older { slot } else { s1[t].newer });
            }
            assert forall|t: int| 0 <= t < n - 1 implies (#[trigger] s3[t]).key == (if t == slot {
                s0.last().key
            } else {
                s0[t].key
            }) && s3[t].value == (if t == slot {
                s0.last().value
            } else {
                s0[t].value
            }) by {
                assert(s3[t].key == s2[t].key);
                assert(s2[t].key == s1[t].key);
            }
            lemma_move(
                s0,
                s3,
                prior.order@,
                slot as int,
                from,
                (prior.oldest, prior.newest),
                (self.oldest, self.newest),
            );
        }
        self.order = Ghost(self.order@.update(from, slot as int));
        proof {
            self.lemma_vacated(prior, slot as int, from);
        }
    }

    /// A sound representation holds a well-formed content.
    proof fn lemma_sound(&self)
        requires
            self.sound(),
        ensures
            self@.wf(),
    {
        let order = self.order@;
        assert forall|i: int, j: int| 0 <= i < j < self@.entries.len() implies (
        #[trigger] self@.entries[i]).0 != (#[trigger] self@.entries[j]).0 by {
            assert(order[i] != order[j]);
            assert(self.index@[self.slab@[order[i]].key@] == order[i]);
            assert(self.index@[self.slab@[order[j]].key@] == order[j]);
        }
    }

    /// A chain that was rearranged, with the pairs and the index left
    /// alone, still has an exact index.
    proof fn lemma_index_kept(&self, prior: BoundedCache)
        requires
            prior.indexed(),
            self.same_pairs(prior),
            self.index == prior.index,
        ensures
            self.indexed(),
    {
        assert forall|k: Seq<char>| #[trigger] self.index@.contains_key(k) implies self.index@[k]
            < self.slab@.len() && self.slab@[self.index@[k] as int].key@ == k by {
            assert(prior.index@.contains_key(k));
            assert(self.slab@[self.index@[k] as int].key == prior.slab@[self.index@[k] as int].key);
        }
        assert forall|s: int| 0 <= s < self.slab@.len() implies self.index@.contains_key(
            (#[trigger] self.slab@[s]).key@,
        ) && self.index@[self.slab@[s].key@] == s by {
            assert(self.slab@[s].key == prior.slab@[s].key);
            assert(prior.index@.contains_key(prior.slab@[s].key@));
        }
    }

    /// Moving the entry at `place` to the newest end of the chain keeps the
    /// cache sound and moves its pair to the end of the content.
    proof fn lemma_refreshed(&self, prior: BoundedCache, place: int)
        requires
            prior.sound(),
            0 <= place < prior.order@.len(),
            self.chained(),
            self.order@ == prior.order@.remove(place).push(prior.order@[place]),
            self.same_pairs(prior),
            self.index == prior.index,
            self.capacity == prior.capacity,
        ensures
            self.sound(),
            self@.entries == prior@.entries.remove(place).push(prior@.entries[place]),
    {
        let before = prior.order@;
        let after = self.order@;
        let n = before.len() as int;
        let slot = before[place];
        self.lemma_index_kept(prior);
        assert forall|i: int| 0 <= i < n implies #[trigger] after[i] == before[if i == n - 1 {
            place
        } else if i < place {
            i
        } else {
            i + 1
        }] by {}
        assert forall|s: int| 0 <= s < self.slab@.len() implies #[trigger] self.listed(s) by {
            assert(prior.listed(s));
            let q = prior.place(s);
            let qq = if q == place {
                n - 1
            } else if q < place {
                q
            } else {
                q - 1
            };
            assert(after[qq] == s);
        }
        assert forall|i: int| 0 <= i < n implies #[trigger] self@.entries[i] == prior@.entries.remove(
            place,
        ).push(prior@.entries[place])[i] by {
            let ii = if i == n - 1 {
                place
            } else if i < place {
                i
            } else {
                i + 1
            };
            assert(after[i] == before[ii]);
            assert(self.slab@[before[ii]].key == prior.slab@[before[ii]].key);
        }
        assert(self@.entries =~= prior@.entries.remove(place).push(prior@.entries[place]));
    }

    /// After the value at `slot` was overwritten, the cache is still sound,
    /// and its content differs only in that value.
    proof fn lemma_rewritten(&self, prior: BoundedCache, slot: int)
        requires
            prior.sound(),
            0 <= slot < prior.slab@.len(),
            self.slab@.len() == prior.slab@.len(),
            forall|s: int|
                0 <= s < prior.slab@.len() && s != slot ==> #[trigger] self.slab@[s] == prior.slab@[s],
            self.slab@[slot].key == prior.slab@[slot].key,
            self.slab@[slot].older == prior.slab@[slot].older,
            self.slab@[slot].newer == prior.slab@[slot].newer,
            self.order == prior.order,
            self.index == prior.index,
            self.oldest == prior.oldest,
            self.newest == prior.newest,
            self.capacity == prior.capacity,
        ensures
            self.sound(),
            self@.entries.len() == prior@.entries.len(),
            forall|i: int|
                0 <= i < prior@.entries.len() ==> #[trigger] self@.entries[i] == (
                if self.order@[i] == slot {
                    (prior@.entries[i].0, self.slab@[slot].value@)
                } else {
                    prior@.entries[i]
                }),
    {
        let order = self.order@;
        assert forall|s: int| 0 <= s < self.slab@.len() implies (#[trigger] self.slab@[s]).key
            == prior.slab@[s].key && self.slab@[s].older == prior.slab@[s].older
            && self.slab@[s].newer == prior.slab@[s].newer by {}
        assert(self.chained()) by {
            assert forall|i: int| 0 <= i < order.len() implies (#[trigger] self.slab@[order[i]]).older
                == prior.slab@[order[i]].older && self.slab@[order[i]].newer
                == prior.slab@[order[i]].newer by {}
        }
        assert(self.indexed()) by {
            assert forall|k: Seq<char>| #[trigger] self.index@.contains_key(k) implies self.index@[k]
                < self.slab@.len() && self.slab@[self.index@[k] as int].key@ == k by {
                assert(prior.index@.contains_key(k));
            }
            assert forall|s: int| 0 <= s < self.slab@.len() implies self.index@.contains_key(
                (#[trigger] self.slab@[s]).key@,
            ) && self.index@[self.slab@[s].key@] == s by {
                assert(prior.index@.contains_key(prior.slab@[s].key@));
            }
        }
        assert forall|s: int| 0 <= s < self.slab@.len() implies #[trigger] self.listed(s) by {
            assert(prior.listed(s));
            let q = prior.place(s);
            assert(order[q] == s);
        }
    }

    /// After the pair at `slot` was replaced by one with a key that was not
    /// held, and the index was changed to match, the cache is still sound,
    /// and its content differs only in that pair.
    proof fn lemma_replaced(&self, prior: BoundedCache, slot: int)
        requires
            prior.sound(),
            0 <= slot < prior.slab@.len(),
            !prior@.holds(self.slab@[slot].key@),
            self.slab@.len() == prior.slab@.len(),
            forall|s: int|
                0 <= s < prior.slab@.len() && s != slot ==> #[trigger] self.slab@[s] == prior.slab@[s],
            self.slab@[slot].older == prior.slab@[slot].older,
            self.slab@[slot].newer == prior.slab@[slot].newer,
            self.order == prior.order,
            self.index@ == prior.index@.remove(prior.slab@[slot].key@).insert(
                self.slab@[slot].key@,
                slot as usize,
            ),
            self.oldest == prior.oldest,
            self.newest == prior.newest,
            self.capacity == prior.capacity,
        ensures
            self.sound(),
            self@.entries.len() == prior@.entries.len(),
            forall|i: int|
                0 <= i < prior@.entries.len() ==> #[trigger] self@.entries[i] == (
                if self.order@[i] == slot {
                    self.slab@[slot]@
                } else {
                    prior@.entries[i]
                }),
    {
        let order = self.order@;
        let fresh = self.slab@[slot].key@;
        let stale = prior.slab@[slot].key@;
        assert(self.chained()) by {
            assert forall|i: int| 0 <= i < order.len() implies (#[trigger] self.slab@[order[i]]).older
                == prior.slab@[order[i]].older && self.slab@[order[i]].newer
                == prior.slab@[order[i]].newer by {}
        }
        assert forall|s: int| 0 <= s < self.slab@.len() implies #[trigger] self.listed(s) by {
            assert(prior.listed(s));
            let q = prior.place(s);
            assert(order[q] == s);
        }
        assert forall|s: int| 0 <= s < prior.slab@.len() implies (#[trigger] prior.slab@[s]).key@
            != fresh by {
            assert(prior.listed(s));
            let q = prior.place(s);
            assert(prior@.entries[q] == prior.slab@[s]@);
        }
        assert(self.indexed()) by {
            assert forall|k: Seq<char>| #[trigger] self.index@.contains_key(k) implies self.index@[k]
                < self.slab@.len() && self.slab@[self.index@[k] as int].key@ == k by {
                if k != fresh {
                    assert(prior.index@.contains_key(k));
                    assert(k != stale);
                    assert(prior.index@[k] != slot) by {
                        assert(prior.slab@[prior.index@[k] as int].key@ == k);
                    }
                }
            }
            assert forall|s: int| 0 <= s < self.slab@.len() implies self.index@.contains_key(
                (#[trigger] self.slab@[s]).key@,
            ) && self.index@[self.slab@[s].key@] == s by {
                if s != slot {
                    assert(prior.index@.contains_key(prior.slab@[s].key@));
                    assert(prior.index@[prior.slab@[s].key@] == s);
                    assert(prior.index@[stale] == slot);
                    assert(prior.slab@[s].key@ != stale);
                    assert(prior.slab@[s].key@ != fresh);
                }
            }
        }
    }

    /// After a pair with a key that was not held got a new slot at the
    /// newest end of the chain, and the index learnt of it, the cache is
    /// sound and holds that pair after the others.
    proof fn lemma_appended(&self, prior: BoundedCache, key: Seq<char>, value: Seq<char>)
        requires
            prior.sound(),
            prior@.wf(),
            !prior@.holds(key),
            prior.slab@.len() < prior.capacity,
            self.chained(),
            self.capacity == prior.capacity,
            self.slab@.len() == prior.slab@.len() + 1,
            self.order@ == prior.order@.push(prior.slab@.len() as int),
            self.index@ == prior.index@.insert(key, prior.slab@.len() as usize),
            self.slab@.last().key@ == key,
            self.slab@.last().value@ == value,
            forall|s: int|
                0 <= s < prior.slab@.len() ==> (#[trigger] self.slab@[s]).key == prior.slab@[s].key
                    && self.slab@[s].value == prior.slab@[s].value,
        ensures
            self.sound(),
            self.content() == prior.content().push((key, value)),
    {
        let n = prior.slab@.len() as int;
        let after = self.order@;
        assert forall|i: int| 0 <= i < n implies #[trigger] after[i] == prior.order@[i] by {}
        assert(after[n] == n);
        assert forall|s: int| 0 <= s < self.slab@.len() implies #[trigger] self.listed(s) by {
            if s == n {
                assert(after[n] == s);
            } else {
                assert(prior.listed(s));
                let q = prior.place(s);
                assert(after[q] == s);
            }
        }
        assert forall|s: int| 0 <= s < n implies (#[trigger] prior.slab@[s]).key@ != key by {
            assert(prior.listed(s));
            let q = prior.place(s);
            assert(prior@.entries[q] == prior.slab@[s]@);
        }
        assert forall|k: Seq<char>| #[trigger] self.index@.contains_key(k) implies self.index@[k]
            < self.slab@.len() && self.slab@[self.index@[k] as int].key@ == k by {
            if k != key {
                assert(prior.index@.contains_key(k));
                assert(self.slab@[prior.index@[k] as int].key == prior.slab@[prior.index@[k] as int].key);
            }
        }
        assert forall|s: int| 0 <= s < self.slab@.len() implies self.index@.contains_key(
            (#[trigger] self.slab@[s]).key@,
        ) && self.index@[self.slab@[s].key@] == s by {
            if s != n {
                assert(self.slab@[s].key == prior.slab@[s].key);
                assert(prior.index@.contains_key(prior.slab@[s].key@));
            }
        }
        assert forall|i: int| 0 <= i < n + 1 implies #[trigger] self.content()[i] == prior.content().push(
            (key, value),
        )[i] by {
            if i < n {
                assert(after[i] == prior.order@[i]);
                assert(0 <= prior.order@[i] < n);
                assert(self.slab@[prior.order@[i]].key == prior.slab@[prior.order@[i]].key);
            }
        }
        assert(self.content() =~= prior.content().push((key, value)));
    }

    /// After an entry was taken off the chain and its key out of the index,
    /// the cache is sound but for that entry's slot, and the chain holds the
    /// other pairs in their order.
    proof fn lemma_holed(&self, prior: BoundedCache, slot: int, place: int)
        requires
            prior.sound(),
            0 <= place < prior.order@.len(),
            prior.order@[place] == slot,
            self.chained(),
            self.order@ == prior.order@.remove(place),
            self.same_pairs(prior),
            self.index@ == prior.index@.remove(prior.slab@[slot].key@),
            self.capacity == prior.capacity,
        ensures
            self.holed(slot),
            self.content() == prior@.entries.remove(place),
    {
        let before = prior.order@;
        let after = self.order@;
        let n = before.len() as int;
        let key = prior.slab@[slot].key@;
        assert(prior.chained());
        assert(0 <= slot < n);
        assert forall|i: int| 0 <= i < n - 1 implies #[trigger] after[i] == before[if i < place {
            i
        } else {
            i + 1
        }] by {}
        assert forall|i: int| 0 <= i < n - 1 implies #[trigger] after[i] != slot by {
            let ii = if i < place { i } else { i + 1 };
            assert(before[ii] != before[place]);
        }
        assert forall|s: int| 0 <= s < n && s != slot implies #[trigger] self.listed(s) by {
            assert(prior.listed(s));
            let q = prior.place(s);
            let qq = if q < place { q } else { q - 1 };
            assert(after[qq] == s);
        }
        assert(prior.index@.contains_key(prior.slab@[slot].key@));
        assert forall|k: Seq<char>| #[trigger] self.index@.contains_key(k) implies self.index@[k]
            < self.slab@.len() && self.index@[k] != slot && self.slab@[self.index@[k] as int].key@
            == k by {
            assert(prior.index@.contains_key(k));
            assert(self.slab@[prior.index@[k] as int].key == prior.slab@[prior.index@[k] as int].key);
        }
        assert forall|s: int| 0 <= s < self.slab@.len() && s != slot implies self.index@.contains_key(
            (#[trigger] self.slab@[s]).key@,
        ) && self.index@[self.slab@[s].key@] == s by {
            assert(self.slab@[s].key == prior.slab@[s].key);
            assert(prior.index@.contains_key(prior.slab@[s].key@));
            assert(prior.index@[prior.slab@[s].key@] == s);
        }
        assert forall|i: int| 0 <= i < n - 1 implies #[trigger] self.content()[i]
            == prior@.entries.remove(place)[i] by {
            let ii = if i < place { i } else { i + 1 };
            assert(after[i] == before[ii]);
            assert(0 <= before[ii] < n);
            assert(self.slab@[before[ii]].key == prior.slab@[before[ii]].key);
        }
        assert(self.content() =~= prior@.entries.remove(place));
    }

    /// After the last entry took the place of the hole, the cache is sound
    /// and holds what the chain held.
    proof fn lemma_vacated(&self, prior: BoundedCache, slot: int, from: int)
        requires
            prior.holed(slot),
            self.chained(),
            self.capacity == prior.capacity,
            self.slab@.len() == prior.slab@.len() - 1,
            slot == prior.slab@.len() - 1 ==> self.order@ == prior.order@ && self.index@
                == prior.index@,
            slot != prior.slab@.len() - 1 ==> {
                &&& 0 <= from < prior.order@.len()
                &&& prior.order@[from] == prior.slab@.len() - 1
                &&& self.order@ == prior.order@.update(from, slot)
                &&& self.index@ == prior.index@.insert(prior.slab@.last().key@, slot as usize)
            },
            forall|s: int|
                0 <= s < self.slab@.len() ==> (#[trigger] self.slab@[s]).key == (if s == slot {
                    prior.slab@.last().key
                } else {
                    prior.slab@[s].key
                }) && self.slab@[s].value == (if s == slot {
                    prior.slab@.last().value
                } else {
                    prior.slab@[s].value
                }),
        ensures
            self.sound(),
            self.content() == prior.content(),
    {
        let n = prior.slab@.len() as int;
        let last = n - 1;
        let before = prior.order@;
        let after = self.order@;
        let moved_key = prior.slab@.last().key@;
        if slot == last {
            assert forall|s: int| 0 <= s < self.slab@.len() implies #[trigger] self.listed(s) by {
                assert(prior.listed(s));
                let q = prior.place(s);
                assert(after[q] == s);
            }
            assert forall|k: Seq<char>| #[trigger] self.index@.contains_key(k) implies self.index@[k]
                < self.slab@.len() && self.slab@[self.index@[k] as int].key@ == k by {
                assert(prior.index@.contains_key(k));
            }
            assert forall|s: int| 0 <= s < self.slab@.len() implies self.index@.contains_key(
                (#[trigger] self.slab@[s]).key@,
            ) && self.index@[self.slab@[s].key@] == s by {
                assert(prior.index@.contains_key(prior.slab@[s].key@));
            }
            assert forall|i: int| 0 <= i < before.len() implies #[trigger] self.content()[i]
                == prior.content()[i] by {
                assert(before[i] != slot);
            }
            assert(self.content() =~= prior.content());
        } else {
            assert(prior.index@.contains_key(prior.slab@[last].key@));
            assert forall|i: int| 0 <= i < before.len() implies #[trigger] after[i] == (if i == from {
                slot
            } else {
                before[i]
            }) by {}
            assert forall|s: int| 0 <= s < self.slab@.len() implies #[trigger] self.listed(s) by {
                if s == slot {
                    assert(after[from] == s);
                } else {
                    assert(prior.listed(s));
                    let q = prior.place(s);
                    assert(after[q] == s);
                }
            }
            assert forall|k: Seq<char>| #[trigger] self.index@.contains_key(k) implies self.index@[k]
                < self.slab@.len() && self.slab@[self.index@[k] as int].key@ == k by {
                if k != moved_key {
                    assert(prior.index@.contains_key(k));
                    let s = prior.index@[k] as int;
                    assert(prior.slab@[s].key@ == k);
                    assert(s != last);
                    assert(self.slab@[s].key == prior.slab@[s].key);
                } else {
                    assert(self.slab@[slot].key == prior.slab@.last().key);
                }
            }
            assert forall|s: int| 0 <= s < self.slab@.len() implies self.index@.contains_key(
                (#[trigger] self.slab@[s]).key@,
            ) && self.index@[self.slab@[s].key@] == s by {
                if s != slot {
                    assert(self.slab@[s].key == prior.slab@[s].key);
                    assert(prior.index@.contains_key(prior.slab@[s].key@));
                    assert(prior.index@[prior.slab@[s].key@] == s);
                    assert(prior.index@[prior.slab@[last].key@] == last);
                }
            }
            assert forall|i: int| 0 <= i < before.len() implies #[trigger] self.content()[i]
                == prior.content()[i] by {
                assert(before[i] != slot);
                if i != from {
                    assert(before[i] != before[from]);
                    assert(0 <= before[i] < n);
                    assert(self.slab@[before[i]].key == prior.slab@[before[i]].key);
                } else {
                    assert(self.slab@[slot].key == prior.slab@.last().key);
                }
            }
            assert(self.content() =~= prior.content());
        }
    }
}

} // verus!
