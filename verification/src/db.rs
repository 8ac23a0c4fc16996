//! Bounded in-memory key/value caches with two eviction policies.
//!
//! Both caches are modelled as a sequence of entries; an entry pairs a key
//! (viewed as a sequence of characters) with a stored value, and, for the
//! LFU cache, an access counter.  The LRU cache keeps its entries in recency
//! order, most recently used first; the LFU cache keeps its entries in
//! insertion order and evicts the first entry holding the smallest counter,
//! so that the oldest-inserted entry wins a tie.

use vstd::prelude::*;

verus! {

/// True when some entry of `s` carries the key `k`.
pub open spec fn has_key<V>(s: Seq<(Seq<char>, V)>, k: Seq<char>) -> bool {
    exists|i: int| 0 <= i < s.len() && s[i].0 == k
}

/// The index of the entry carrying key `k` (meaningful only when
/// `has_key(s, k)` holds and keys are distinct).
pub open spec fn key_index<V>(s: Seq<(Seq<char>, V)>, k: Seq<char>) -> int {
    choose|i: int| 0 <= i < s.len() && s[i].0 == k
}

/// The value stored under key `k`.
pub open spec fn value_of<V>(s: Seq<(Seq<char>, V)>, k: Seq<char>) -> V {
    s[key_index(s, k)].1
}

/// No two entries of `s` carry the same key.
pub open spec fn distinct_keys<V>(s: Seq<(Seq<char>, V)>) -> bool {
    forall|i: int, j: int| 0 <= i < j < s.len() ==> s[i].0 != s[j].0
}

/// The key-to-value mapping that a sequence of entries represents.
pub open spec fn assoc_map<V>(s: Seq<(Seq<char>, V)>) -> Map<Seq<char>, V> {
    Map::new(|k: Seq<char>| has_key(s, k), |k: Seq<char>| value_of(s, k))
}

/// `s` with the entry carrying key `k` removed, if any.
pub open spec fn remove_key<V>(s: Seq<(Seq<char>, V)>, k: Seq<char>) -> Seq<(Seq<char>, V)> {
    if has_key(s, k) {
        s.remove(key_index(s, k))
    } else {
        s
    }
}

/// What one LRU `set` does to the model: drop the key's old entry if present,
/// evict the least recently used entry if still at capacity, and place the
/// new entry at the front.
pub open spec fn lru_set_step<V>(
    s: Seq<(Seq<char>, V)>,
    k: Seq<char>,
    v: V,
    max: nat,
) -> Seq<(Seq<char>, V)> {
    let without = remove_key(s, k);
    let fitted = if without.len() == max {
        without.drop_last()
    } else {
        without
    };
    seq![(k, v)] + fitted
}

/// What one LRU `get` does to the model: move the key's entry, if any, to
/// the front; an absent key changes nothing.
pub open spec fn lru_get_step<V>(s: Seq<(Seq<char>, V)>, k: Seq<char>) -> Seq<(Seq<char>, V)> {
    if has_key(s, k) {
        seq![(k, value_of(s, k))] + s.remove(key_index(s, k))
    } else {
        s
    }
}

/// The index that `key_index` designates for a present key is in range and
/// carries that key.
pub proof fn lemma_key_index_props<V>(s: Seq<(Seq<char>, V)>, k: Seq<char>)
    requires
        has_key(s, k),
    ensures
        0 <= key_index(s, k) < s.len(),
        s[key_index(s, k)].0 == k,
{
}

/// In a sequence with distinct keys, the entry found at an index is the one
/// `key_index` designates for its key.
pub proof fn lemma_key_index_unique<V>(s: Seq<(Seq<char>, V)>, i: int)
    requires
        distinct_keys(s),
        0 <= i < s.len(),
    ensures
        has_key(s, s[i].0),
        key_index(s, s[i].0) == i,
{
    let k = s[i].0;
    assert(has_key(s, k));
    let j = key_index(s, k);
    if j < i {
        assert(s[j].0 != s[i].0);
    } else if i < j {
        assert(s[i].0 != s[j].0);
    }
}

/// Removing a key keeps keys distinct and leaves every other key, with its
/// value, in place.
pub proof fn lemma_remove_key<V>(s: Seq<(Seq<char>, V)>, k: Seq<char>)
    requires
        distinct_keys(s),
    ensures
        distinct_keys(remove_key(s, k)),
        !has_key(remove_key(s, k), k),
        remove_key(s, k).len() == (if has_key(s, k) {
            s.len() - 1
        } else {
            s.len() as int
        }),
        forall|k2: Seq<char>|
            k2 != k ==> (#[trigger] has_key(remove_key(s, k), k2)) == has_key(s, k2),
        forall|k2: Seq<char>|
            k2 != k && has_key(s, k2) ==> #[trigger] value_of(remove_key(s, k), k2) == value_of(
                s,
                k2,
            ),
{
    if has_key(s, k) {
        let i = key_index(s, k);
        let s2 = s.remove(i);
        assert(s2 =~= s.subrange(0, i) + s.subrange(i + 1, s.len() as int));
        assert forall|a: int, b: int| 0 <= a < b < s2.len() implies s2[a].0 != s2[b].0 by {
            let a0 = if a < i {
                a
            } else {
                a + 1
            };
            let b0 = if b < i {
                b
            } else {
                b + 1
            };
            assert(s2[a] == s[a0] && s2[b] == s[b0]);
        }
        assert forall|j: int| 0 <= j < s2.len() implies s2[j].0 != k by {
            let j0 = if j < i {
                j
            } else {
                j + 1
            };
            assert(s2[j] == s[j0]);
            if j0 != i {
                lemma_key_index_unique(s, j0);
                if s[j0].0 == k {
                    assert(key_index(s, k) == j0);
                }
            }
        }
        assert forall|k2: Seq<char>| k2 != k && has_key(s, k2) implies has_key(s2, k2) by {
            let j = key_index(s, k2);
            let jj = if j < i {
                j
            } else {
                j - 1
            };
            assert(s2[jj] == s[j]);
        }
        assert forall|k2: Seq<char>| k2 != k && has_key(s2, k2) implies has_key(s, k2) by {
            let j = key_index(s2, k2);
            let j0 = if j < i {
                j
            } else {
                j + 1
            };
            assert(s2[j] == s[j0]);
        }
        assert forall|k2: Seq<char>| k2 != k && has_key(s, k2) implies value_of(s2, k2) == value_of(
            s,
            k2,
        ) by {
            let j = key_index(s, k2);
            assert(s[j].0 == k2);
            let jj = if j < i {
                j
            } else {
                j - 1
            };
            assert(s2[jj] == s[j]);
            lemma_key_index_unique(s2, jj);
        }
    }
}

/// Shape of the model after one LRU `set`: keys stay distinct, the bound
/// holds, the key is present at the front with the new value, every other
/// surviving key keeps its value, and nothing is evicted unless the cache
/// was full and the key new.
pub proof fn lemma_lru_set_shape<V>(s: Seq<(Seq<char>, V)>, k: Seq<char>, v: V, max: nat)
    requires
        distinct_keys(s),
        s.len() <= max,
        max >= 1,
    ensures
        ({
            let sn = lru_set_step(s, k, v, max);
            &&& distinct_keys(sn)
            &&& sn.len() <= max
            &&& has_key(sn, k)
            &&& value_of(sn, k) == v
            &&& assoc_map(sn).contains_pair(k, v)
            &&& forall|k2: Seq<char>|
                #[trigger] assoc_map(sn).dom().contains(k2) && k2 != k ==> assoc_map(
                    s,
                ).contains_pair(k2, assoc_map(sn)[k2])
            &&& (has_key(s, k) || s.len() < max) ==> forall|k2: Seq<char>|
                #[trigger] assoc_map(s).dom().contains(k2) ==> assoc_map(sn).dom().contains(k2)
        }),
{
    lemma_remove_key(s, k);
    let s1 = remove_key(s, k);
    let s2 = if s1.len() == max {
        s1.drop_last()
    } else {
        s1
    };
    let sn = lru_set_step(s, k, v, max);
    assert(sn == seq![(k, v)] + s2);
    assert(forall|j: int| 0 <= j < s2.len() ==> s2[j] == s1[j]);
    assert forall|j: int| 0 <= j < s2.len() implies s2[j].0 != k by {
        if s2[j].0 == k {
            assert(s1[j].0 == k);
        }
    }
    assert forall|a: int, b: int| 0 <= a < b < sn.len() implies sn[a].0 != sn[b].0 by {
        if a == 0 {
            assert(sn[b] == s2[b - 1]);
        } else {
            assert(sn[a] == s2[a - 1] && sn[b] == s2[b - 1]);
            assert(s1[a - 1].0 != s1[b - 1].0);
        }
    }
    assert(sn[0] == (k, v));
    lemma_key_index_unique(sn, 0);
    assert(assoc_map(sn).contains_pair(k, v));
    assert forall|k2: Seq<char>|
        #[trigger] assoc_map(sn).dom().contains(k2) && k2 != k implies assoc_map(s).contains_pair(
        k2,
        assoc_map(sn)[k2],
    ) by {
        assert(has_key(sn, k2));
        lemma_key_index_props(sn, k2);
        let j = key_index(sn, k2);
        assert(j >= 1);
        assert(sn[j] == s2[j - 1]);
        assert(s2[j - 1] == s1[j - 1]);
        lemma_key_index_unique(s1, j - 1);
        assert(has_key(s1, k2) && value_of(s1, k2) == sn[j].1);
        assert(has_key(s, k2));
        assert(value_of(s, k2) == value_of(s1, k2));
        lemma_key_index_unique(sn, j);
        assert(value_of(sn, k2) == sn[j].1);
    }
    if has_key(s, k) || s.len() < max {
        assert(s1.len() < max);
        assert(s2 == s1);
        assert forall|k2: Seq<char>| #[trigger] assoc_map(s).dom().contains(k2) implies assoc_map(
            sn,
        ).dom().contains(k2) by {
            if k2 != k {
                assert(has_key(s, k2));
                assert(has_key(remove_key(s, k), k2));
                lemma_key_index_props(s1, k2);
                let j = key_index(s1, k2);
                assert(sn[j + 1] == s1[j]);
                assert(sn[j + 1].0 == k2);
                assert(has_key(sn, k2));
            }
        }
    }
}

/// Shape of the model after one LRU `get`: the represented mapping is
/// untouched, only the recency order moves.
pub proof fn lemma_lru_get_shape<V>(s: Seq<(Seq<char>, V)>, k: Seq<char>)
    requires
        distinct_keys(s),
    ensures
        distinct_keys(lru_get_step(s, k)),
        lru_get_step(s, k).len() == s.len(),
        assoc_map(lru_get_step(s, k)) == assoc_map(s),
{
    if has_key(s, k) {
        let i = key_index(s, k);
        lemma_remove_key(s, k);
        let s1 = s.remove(i);
        assert(s1 == remove_key(s, k));
        let sn = lru_get_step(s, k);
        assert(sn == seq![(k, value_of(s, k))] + s1);
        assert forall|a: int, b: int| 0 <= a < b < sn.len() implies sn[a].0 != sn[b].0 by {
            if a == 0 {
                assert(sn[b] == s1[b - 1]);
                if sn[b].0 == k {
                    assert(has_key(s1, k));
                }
            } else {
                assert(sn[a] == s1[a - 1] && sn[b] == s1[b - 1]);
            }
        }
        lemma_key_index_unique(sn, 0);
        assert forall|k2: Seq<char>| #[trigger] has_key(sn, k2) == has_key(s, k2) && (has_key(
            s,
            k2,
        ) ==> value_of(sn, k2) == value_of(s, k2)) by {
            if k2 == k {
                assert(sn[0].0 == k);
                assert(has_key(sn, k));
                assert(value_of(sn, k) == value_of(s, k));
            } else {
                if has_key(s, k2) {
                    assert(has_key(remove_key(s, k), k2));
                    lemma_key_index_props(s1, k2);
                    let j = key_index(s1, k2);
                    assert(sn[j + 1] == s1[j]);
                    assert(sn[j + 1].0 == k2);
                    assert(has_key(sn, k2));
                    lemma_key_index_unique(sn, j + 1);
                    lemma_key_index_unique(s1, j);
                    assert(value_of(sn, k2) == s1[j].1);
                    assert(value_of(s1, k2) == value_of(s, k2));
                }
                if has_key(sn, k2) {
                    lemma_key_index_props(sn, k2);
                    let j = key_index(sn, k2);
                    assert(j >= 1);
                    assert(sn[j] == s1[j - 1]);
                    assert(has_key(s1, k2));
                }
            }
        }
        assert(assoc_map(sn) =~= assoc_map(s));
    }
}

/// A bounded key/value store: `set` inserts under a key, evicting per the
/// policy when the capacity would be exceeded, and `get` returns the value
/// stored under a key, updating the policy's bookkeeping.
///
/// `contents()` is the key-to-value mapping held, `num_entries()` how many
/// keys it holds, `capacity()` the bound fixed at construction, and `wf()`
/// the representation invariant that every operation preserves.
pub trait MemoryCache<V: Clone>: Sized {
    spec fn contents(&self) -> Map<Seq<char>, V>;

    spec fn num_entries(&self) -> nat;

    spec fn capacity(&self) -> nat;

    spec fn wf(&self) -> bool;

    /// Stores `value` under `key`.  The key is afterwards present with
    /// exactly this value, every other surviving key keeps its value, and
    /// no key is evicted unless the store was full and the key new.
    fn set(&mut self, key: String, value: V)
        requires
            old(self).wf(),
        ensures
            final(self).wf(),
            final(self).capacity() == old(self).capacity(),
            final(self).num_entries() <= final(self).capacity(),
            final(self).contents().contains_pair(key@, value),
            forall|k: Seq<char>|
                #[trigger] final(self).contents().dom().contains(k) && k != key@
                    ==> old(self).contents().contains_pair(k, final(self).contents()[k]),
            (old(self).contents().dom().contains(key@)
                || old(self).num_entries() < old(self).capacity())
                ==> forall|k: Seq<char>|
                    #[trigger] old(self).contents().dom().contains(k)
                        ==> final(self).contents().dom().contains(k),
    ;

    /// Looks `key` up.  A hit returns a clone of the stored value and leaves
    /// the mapping unchanged (only bookkeeping moves); a miss returns `None`
    /// and changes nothing.
    fn get(&mut self, key: &str) -> (r: Option<V>)
        requires
            old(self).wf(),
        ensures
            final(self).wf(),
            final(self).capacity() == old(self).capacity(),
            final(self).num_entries() == old(self).num_entries(),
            final(self).contents() == old(self).contents(),
            (match r {
                Some(v) => old(self).contents().dom().contains(key@) && cloned::<V>(
                    old(self).contents()[key@],
                    v,
                ),
                None => !old(self).contents().dom().contains(key@),
            }),
    ;
}

/// A bounded key/value cache that evicts the least recently used entry.
///
/// Entries are kept in recency order: index 0 is the most recently used,
/// the last index the least recently used.
pub struct LRUMemoryCache<V> {
    entries: Vec<(String, V)>,
    max_size: usize,
}

impl<V> View for LRUMemoryCache<V> {
    type V = Seq<(Seq<char>, V)>;

    closed spec fn view(&self) -> Seq<(Seq<char>, V)> {
        self.entries@.map_values(|e: (String, V)| (e.0@, e.1))
    }
}

impl<V> LRUMemoryCache<V> {
    /// The capacity fixed at construction.
    pub closed spec fn capacity_spec(&self) -> nat {
        self.max_size as nat
    }

    /// Well-formedness: keys are distinct, the bound is respected, and the
    /// capacity is positive.
    pub open spec fn wf_spec(&self) -> bool {
        &&& distinct_keys(self@)
        &&& self@.len() <= self.capacity_spec()
        &&& self.capacity_spec() >= 1
    }

    /// Creates an empty cache holding at most `max_size` entries.
    pub fn new(max_size: usize) -> (r: Self)
        requires
            max_size >= 1,
        ensures
            r.wf_spec(),
            r@ == Seq::<(Seq<char>, V)>::empty(),
            r.capacity_spec() == max_size,
    {
        let r = LRUMemoryCache { entries: Vec::new(), max_size };
        proof {
            assert(r@ =~= Seq::<(Seq<char>, V)>::empty());
        }
        r
    }

    /// Linear scan for the entry carrying `key`.
    fn find_index(&self, key: &String) -> (r: Option<usize>)
        requires
            distinct_keys(self@),
        ensures
            (match r {
                Some(i) => {
                    &&& i < self@.len()
                    &&& self@[i as int].0 == key@
                    &&& has_key(self@, key@)
                    &&& key_index(self@, key@) == i
                },
                None => !has_key(self@, key@),
            }),
    {
        let mut i: usize = 0;
        while i < self.entries.len()
            invariant
                i <= self.entries.len(),
                distinct_keys(self@),
                self@.len() == self.entries.len(),
                forall|j: int| 0 <= j < i ==> self@[j].0 != key@,
            decreases self.entries.len() - i,
        {
            if self.entries[i].0 == *key {
                proof {
                    lemma_key_index_unique(self@, i as int);
                }
                return Some(i);
            }
            i += 1;
        }
        None
    }
}

impl<V: Clone> MemoryCache<V> for LRUMemoryCache<V> {
    open spec fn contents(&self) -> Map<Seq<char>, V> {
        assoc_map(self@)
    }

    open spec fn num_entries(&self) -> nat {
        self@.len()
    }

    open spec fn capacity(&self) -> nat {
        self.capacity_spec()
    }

    open spec fn wf(&self) -> bool {
        self.wf_spec()
    }

    /// Stores `value` under `key` at the front of the recency order; when
    /// the cache is full and the key new, the least recently used entry
    /// (the last) is evicted first.
    fn set(&mut self, key: String, value: V)
        ensures
            final(self)@ == lru_set_step(
                old(self)@,
                key@,
                value,
                old(self).capacity_spec(),
            ),
    {
        proof {
            lemma_remove_key(old(self)@, key@);
        }
        let ghost s0 = self@;
        let idx = self.find_index(&key);
        if let Some(i) = idx {
            self.entries.remove(i);
            proof {
                assert(self@ =~= s0.remove(i as int));
            }
        }
        proof {
            assert(self@ =~= remove_key(s0, key@));
        }
        let ghost s1 = self@;
        if self.entries.len() == self.max_size {
            self.entries.pop();
            proof {
                assert(self@ =~= s1.drop_last());
            }
        }
        let ghost s2 = self@;
        self.entries.insert(0, (key, value));
        proof {
            assert(self@ =~= seq![(key@, value)] + s2);
            assert(self@ == lru_set_step(s0, key@, value, old(self).capacity_spec()));
            lemma_lru_set_shape(s0, key@, value, old(self).capacity_spec());
        }
    }

    /// On a hit, moves the entry to the front of the recency order and
    /// returns a clone of its value; a miss changes nothing.
    fn get(&mut self, key: &str) -> (r: Option<V>)
        ensures
            final(self)@ == lru_get_step(old(self)@, key@),
            (match r {
                Some(v) => has_key(old(self)@, key@) && cloned::<V>(
                    value_of(old(self)@, key@),
                    v,
                ),
                None => !has_key(old(self)@, key@),
            }),
    {
        let ghost s0 = self@;
        let owned: String = key.to_owned();
        let idx = self.find_index(&owned);
        match idx {
            Some(i) => {
                let e = self.entries.remove(i);
                let v = e.1.clone();
                self.entries.insert(0, e);
                proof {
                    assert(self@ =~= seq![(key@, value_of(s0, key@))] + s0.remove(i as int));
                    lemma_lru_get_shape(s0, key@);
                }
                Some(v)
            },
            None => {
                proof {
                    lemma_lru_get_shape(s0, key@);
                }
                None
            },
        }
    }
}

/// LRU eviction law: when a full cache takes a key it does not hold, the
/// key that disappears is exactly the least recently used one (the last in
/// recency order); every other key survives and the bound still holds.
pub proof fn lemma_lru_evicts_least_recent<V>(s: Seq<(Seq<char>, V)>, k: Seq<char>, v: V, max: nat)
    requires
        distinct_keys(s),
        max >= 1,
        s.len() == max,
        !has_key(s, k),
    ensures
        ({
            let sn = lru_set_step(s, k, v, max);
            &&& sn.len() == max
            &&& has_key(sn, k)
            &&& !has_key(sn, s.last().0)
            &&& forall|i: int| 0 <= i < s.len() - 1 ==> has_key(sn, #[trigger] s[i].0)
        }),
{
    let sn = lru_set_step(s, k, v, max);
    assert(remove_key(s, k) == s);
    assert(sn == seq![(k, v)] + s.drop_last());
    lemma_lru_set_shape(s, k, v, max);
    let last = s.last().0;
    assert forall|j: int| 0 <= j < sn.len() implies sn[j].0 != last by {
        if j == 0 {
            if k == last {
                assert(s[s.len() - 1].0 == k);
            }
        } else {
            assert(sn[j] == s[j - 1]);
            assert(s[j - 1].0 != s[s.len() - 1].0);
        }
    }
    assert forall|i: int| 0 <= i < s.len() - 1 implies has_key(sn, #[trigger] s[i].0) by {
        assert(sn[i + 1] == s[i]);
        assert(sn[i + 1].0 == s[i].0);
    }
}

/// LFU eviction law: when a full cache takes a key it does not hold, the
/// evicted key's access counter is the smallest held, every earlier-inserted
/// key's counter strictly exceeds it (ties fall to the oldest-inserted
/// entry), every other key survives, and the bound still holds.
pub proof fn lemma_lfu_evicts_least_frequent<V>(
    s: Seq<(Seq<char>, V, u32)>,
    k: Seq<char>,
    v: V,
    max: nat,
)
    requires
        lfu_distinct_keys(s),
        max >= 1,
        s.len() == max,
        !lfu_has_key(s, k),
    ensures
        ({
            let m = lfu_victim(s);
            let sn = lfu_set_step(s, k, v, max);
            &&& 0 <= m < s.len()
            &&& sn.len() == max
            &&& lfu_has_key(sn, k)
            &&& !lfu_has_key(sn, s[m].0)
            &&& forall|j: int| 0 <= j < s.len() ==> (#[trigger] s[j].2) >= s[m].2
            &&& forall|j: int| 0 <= j < m ==> (#[trigger] s[j].2) > s[m].2
            &&& forall|j: int| 0 <= j < s.len() && j != m ==> lfu_has_key(sn, #[trigger] s[j].0)
        }),
{
    let m = lfu_victim(s);
    let sn = lfu_set_step(s, k, v, max);
    lemma_lfu_min_upto(s, s.len() as int);
    lemma_lfu_remove_at(s, m);
    lemma_lfu_set_shape(s, k, v, max);
    let s1 = s.remove(m);
    assert(sn == s1.push((k, v, 1u32)));
    assert forall|j: int| 0 <= j < sn.len() implies sn[j].0 != s[m].0 by {
        if j < s1.len() {
            assert(sn[j] == s1[j]);
            if s1[j].0 == s[m].0 {
                assert(lfu_has_key(s1, s[m].0));
            }
        } else {
            if k == s[m].0 {
                lemma_lfu_key_index_unique(s, m);
            }
        }
    }
    assert forall|j: int| 0 <= j < s.len() && j != m implies lfu_has_key(
        sn,
        #[trigger] s[j].0,
    ) by {
        let jj = if j < m {
            j
        } else {
            j - 1
        };
        assert(s1[jj] == s[j]);
        assert(sn[jj] == s1[jj]);
        assert(sn[jj].0 == s[j].0);
    }
}

/// True when some entry of the LFU model `s` carries the key `k`.
pub open spec fn lfu_has_key<V>(s: Seq<(Seq<char>, V, u32)>, k: Seq<char>) -> bool {
    exists|i: int| 0 <= i < s.len() && s[i].0 == k
}

/// The index of the LFU entry carrying key `k`.
pub open spec fn lfu_key_index<V>(s: Seq<(Seq<char>, V, u32)>, k: Seq<char>) -> int {
    choose|i: int| 0 <= i < s.len() && s[i].0 == k
}

/// The value stored under key `k`.
pub open spec fn lfu_value_of<V>(s: Seq<(Seq<char>, V, u32)>, k: Seq<char>) -> V {
    s[lfu_key_index(s, k)].1
}

/// The access counter kept for key `k`.
pub open spec fn lfu_count_of<V>(s: Seq<(Seq<char>, V, u32)>, k: Seq<char>) -> u32 {
    s[lfu_key_index(s, k)].2
}

/// No two LFU entries carry the same key.
pub open spec fn lfu_distinct_keys<V>(s: Seq<(Seq<char>, V, u32)>) -> bool {
    forall|i: int, j: int| 0 <= i < j < s.len() ==> s[i].0 != s[j].0
}

/// The key-to-value mapping that an LFU model represents.
pub open spec fn lfu_assoc_map<V>(s: Seq<(Seq<char>, V, u32)>) -> Map<Seq<char>, V> {
    Map::new(|k: Seq<char>| lfu_has_key(s, k), |k: Seq<char>| lfu_value_of(s, k))
}

/// A counter after one more access: one higher, capped at the counter
/// type's maximum.
pub open spec fn bump(c: u32) -> u32 {
    if c < u32::MAX {
        (c + 1) as u32
    } else {
        c
    }
}

/// The index of the first entry among `s[0..n]` holding the smallest
/// counter.
pub open spec fn lfu_min_upto<V>(s: Seq<(Seq<char>, V, u32)>, n: int) -> int
    decreases n,
{
    if n <= 1 {
        0
    } else {
        let m = lfu_min_upto(s, n - 1);
        if s[n - 1].2 < s[m].2 {
            n - 1
        } else {
            m
        }
    }
}

/// The entry an LFU eviction removes: the first entry holding the smallest
/// counter, so the oldest-inserted entry among ties.
pub open spec fn lfu_victim<V>(s: Seq<(Seq<char>, V, u32)>) -> int {
    lfu_min_upto(s, s.len() as int)
}

/// What one LFU `set` does to the model: an existing key keeps its place
/// but takes the new value with its counter reset to 1; a new key evicts
/// the victim if the store is full and is appended with counter 1.
pub open spec fn lfu_set_step<V>(
    s: Seq<(Seq<char>, V, u32)>,
    k: Seq<char>,
    v: V,
    max: nat,
) -> Seq<(Seq<char>, V, u32)> {
    if lfu_has_key(s, k) {
        s.update(lfu_key_index(s, k), (k, v, 1u32))
    } else {
        let fitted = if s.len() == max {
            s.remove(lfu_victim(s))
        } else {
            s
        };
        fitted.push((k, v, 1u32))
    }
}

/// What one LFU `get` does to the model: a hit bumps the key's counter and
/// changes nothing else; a miss changes nothing.
pub open spec fn lfu_get_step<V>(s: Seq<(Seq<char>, V, u32)>, k: Seq<char>) -> Seq<
    (Seq<char>, V, u32),
> {
    if lfu_has_key(s, k) {
        let i = lfu_key_index(s, k);
        s.update(i, (s[i].0, s[i].1, bump(s[i].2)))
    } else {
        s
    }
}

/// The index that `lfu_key_index` designates for a present key is in range
/// and carries that key.
pub proof fn lemma_lfu_key_index_props<V>(s: Seq<(Seq<char>, V, u32)>, k: Seq<char>)
    requires
        lfu_has_key(s, k),
    ensures
        0 <= lfu_key_index(s, k) < s.len(),
        s[lfu_key_index(s, k)].0 == k,
{
}

/// In an LFU model with distinct keys, the entry found at an index is the
/// one `lfu_key_index` designates for its key.
pub proof fn lemma_lfu_key_index_unique<V>(s: Seq<(Seq<char>, V, u32)>, i: int)
    requires
        lfu_distinct_keys(s),
        0 <= i < s.len(),
    ensures
        lfu_has_key(s, s[i].0),
        lfu_key_index(s, s[i].0) == i,
{
    let k = s[i].0;
    assert(lfu_has_key(s, k));
    let j = lfu_key_index(s, k);
    if j < i {
        assert(s[j].0 != s[i].0);
    } else if i < j {
        assert(s[i].0 != s[j].0);
    }
}

/// Removing the entry at one index keeps keys distinct and leaves every
/// other key, with its value and counter, in place.
pub proof fn lemma_lfu_remove_at<V>(s: Seq<(Seq<char>, V, u32)>, i: int)
    requires
        lfu_distinct_keys(s),
        0 <= i < s.len(),
    ensures
        lfu_distinct_keys(s.remove(i)),
        !lfu_has_key(s.remove(i), s[i].0),
        s.remove(i).len() == s.len() - 1,
        forall|k2: Seq<char>|
            k2 != s[i].0 ==> (#[trigger] lfu_has_key(s.remove(i), k2)) == lfu_has_key(s, k2),
        forall|k2: Seq<char>|
            k2 != s[i].0 && lfu_has_key(s, k2) ==> (#[trigger] lfu_value_of(s.remove(i), k2))
                == lfu_value_of(s, k2) && lfu_count_of(s.remove(i), k2) == lfu_count_of(s, k2),
{
    let s2 = s.remove(i);
    assert forall|a: int, b: int| 0 <= a < b < s2.len() implies s2[a].0 != s2[b].0 by {
        let a0 = if a < i {
            a
        } else {
            a + 1
        };
        let b0 = if b < i {
            b
        } else {
            b + 1
        };
        assert(s2[a] == s[a0] && s2[b] == s[b0]);
    }
    assert forall|j: int| 0 <= j < s2.len() implies s2[j].0 != s[i].0 by {
        let j0 = if j < i {
            j
        } else {
            j + 1
        };
        assert(s2[j] == s[j0]);
        if s[j0].0 == s[i].0 {
            lemma_lfu_key_index_unique(s, j0);
            lemma_lfu_key_index_unique(s, i);
        }
    }
    assert forall|k2: Seq<char>| k2 != s[i].0 && lfu_has_key(s, k2) implies lfu_has_key(
        s2,
        k2,
    ) by {
        lemma_lfu_key_index_props(s, k2);
        let j = lfu_key_index(s, k2);
        let jj = if j < i {
            j
        } else {
            j - 1
        };
        assert(s2[jj] == s[j]);
    }
    assert forall|k2: Seq<char>| k2 != s[i].0 && lfu_has_key(s2, k2) implies lfu_has_key(
        s,
        k2,
    ) by {
        lemma_lfu_key_index_props(s2, k2);
        let j = lfu_key_index(s2, k2);
        let j0 = if j < i {
            j
        } else {
            j + 1
        };
        assert(s2[j] == s[j0]);
    }
    assert forall|k2: Seq<char>| k2 != s[i].0 && lfu_has_key(s, k2) implies (#[trigger] lfu_value_of(
        s2,
        k2,
    )) == lfu_value_of(s, k2) && lfu_count_of(s2, k2) == lfu_count_of(s, k2) by {
        lemma_lfu_key_index_props(s, k2);
        let j = lfu_key_index(s, k2);
        let jj = if j < i {
            j
        } else {
            j - 1
        };
        assert(s2[jj] == s[j]);
        lemma_lfu_key_index_unique(s2, jj);
    }
}

/// The first-minimum scan lands on an entry whose counter no entry beats,
/// and that every earlier entry strictly exceeds.
pub proof fn lemma_lfu_min_upto<V>(s: Seq<(Seq<char>, V, u32)>, n: int)
    requires
        1 <= n <= s.len(),
    ensures
        0 <= lfu_min_upto(s, n) < n,
        forall|j: int| 0 <= j < n ==> (#[trigger] s[j].2) >= s[lfu_min_upto(s, n)].2,
        forall|j: int| 0 <= j < lfu_min_upto(s, n) ==> (#[trigger] s[j].2) > s[lfu_min_upto(s, n)].2,
    decreases n,
{
    if n > 1 {
        lemma_lfu_min_upto(s, n - 1);
    }
}

/// Shape of the model after one LFU `set`: keys stay distinct, the bound
/// holds, the key is present with the new value and a counter of 1, every
/// other surviving key keeps its value, and nothing is evicted unless the
/// cache was full and the key new.
pub proof fn lemma_lfu_set_shape<V>(s: Seq<(Seq<char>, V, u32)>, k: Seq<char>, v: V, max: nat)
    requires
        lfu_distinct_keys(s),
        s.len() <= max,
        max >= 1,
    ensures
        ({
            let sn = lfu_set_step(s, k, v, max);
            &&& lfu_distinct_keys(sn)
            &&& sn.len() <= max
            &&& lfu_has_key(sn, k)
            &&& lfu_value_of(sn, k) == v
            &&& lfu_count_of(sn, k) == 1u32
            &&& lfu_assoc_map(sn).contains_pair(k, v)
            &&& forall|k2: Seq<char>|
                #[trigger] lfu_assoc_map(sn).dom().contains(k2) && k2 != k ==> lfu_assoc_map(
                    s,
                ).contains_pair(k2, lfu_assoc_map(sn)[k2])
            &&& (lfu_has_key(s, k) || s.len() < max) ==> forall|k2: Seq<char>|
                #[trigger] lfu_assoc_map(s).dom().contains(k2) ==> lfu_assoc_map(
                    sn,
                ).dom().contains(k2)
        }),
{
    let sn = lfu_set_step(s, k, v, max);
    if lfu_has_key(s, k) {
        lemma_lfu_key_index_props(s, k);
        let i = lfu_key_index(s, k);
        assert(sn == s.update(i, (k, v, 1u32)));
        assert(forall|j: int| 0 <= j < s.len() ==> #[trigger] sn[j].0 == s[j].0);
        assert(lfu_distinct_keys(sn));
        lemma_lfu_key_index_unique(sn, i);
        assert forall|k2: Seq<char>|
            #[trigger] lfu_assoc_map(sn).dom().contains(k2) && k2 != k implies lfu_assoc_map(
            s,
        ).contains_pair(k2, lfu_assoc_map(sn)[k2]) by {
            lemma_lfu_key_index_props(sn, k2);
            let j = lfu_key_index(sn, k2);
            assert(j != i);
            assert(sn[j] == s[j]);
            lemma_lfu_key_index_unique(s, j);
            assert(lfu_value_of(s, k2) == s[j].1);
            assert(lfu_value_of(sn, k2) == sn[j].1);
        }
        assert forall|k2: Seq<char>| #[trigger] lfu_assoc_map(s).dom().contains(
            k2,
        ) implies lfu_assoc_map(sn).dom().contains(k2) by {
            lemma_lfu_key_index_props(s, k2);
            let j = lfu_key_index(s, k2);
            assert(sn[j].0 == k2);
            assert(lfu_has_key(sn, k2));
        }
    } else {
        let fitted = if s.len() == max {
            s.remove(lfu_victim(s))
        } else {
            s
        };
        if s.len() == max {
            lemma_lfu_min_upto(s, s.len() as int);
            lemma_lfu_remove_at(s, lfu_victim(s));
        }
        assert(sn == fitted.push((k, v, 1u32)));
        assert forall|j: int| 0 <= j < fitted.len() implies fitted[j].0 != k by {
            if s.len() == max {
                let j0 = if j < lfu_victim(s) {
                    j
                } else {
                    j + 1
                };
                assert(fitted[j] == s[j0]);
            }
        }
        assert(lfu_distinct_keys(fitted));
        assert(sn[fitted.len() as int] == (k, v, 1u32));
        assert forall|a: int, b: int| 0 <= a < b < sn.len() implies sn[a].0 != sn[b].0 by {
            if b < fitted.len() {
                assert(sn[a] == fitted[a] && sn[b] == fitted[b]);
            } else {
                assert(sn[a] == fitted[a] && sn[b].0 == k);
            }
        }
        lemma_lfu_key_index_unique(sn, fitted.len() as int);
        assert forall|k2: Seq<char>|
            #[trigger] lfu_assoc_map(sn).dom().contains(k2) && k2 != k implies lfu_assoc_map(
            s,
        ).contains_pair(k2, lfu_assoc_map(sn)[k2]) by {
            lemma_lfu_key_index_props(sn, k2);
            let j = lfu_key_index(sn, k2);
            assert(j < fitted.len());
            assert(sn[j] == fitted[j]);
            lemma_lfu_key_index_unique(fitted, j);
            assert(lfu_has_key(fitted, k2) && lfu_value_of(fitted, k2) == sn[j].1);
            if s.len() == max {
                assert(k2 != s[lfu_victim(s)].0);
                assert(lfu_has_key(s, k2));
                assert(lfu_value_of(s, k2) == lfu_value_of(fitted, k2));
            }
            lemma_lfu_key_index_unique(sn, j);
            assert(lfu_value_of(sn, k2) == sn[j].1);
        }
        if s.len() < max {
            assert(fitted == s);
            assert forall|k2: Seq<char>| #[trigger] lfu_assoc_map(s).dom().contains(
                k2,
            ) implies lfu_assoc_map(sn).dom().contains(k2) by {
                lemma_lfu_key_index_props(s, k2);
                let j = lfu_key_index(s, k2);
                assert(sn[j].0 == k2);
                assert(lfu_has_key(sn, k2));
            }
        }
    }
}

/// Shape of the model after one LFU `get`: the represented mapping is
/// untouched, only the hit key's counter is bumped.
pub proof fn lemma_lfu_get_shape<V>(s: Seq<(Seq<char>, V, u32)>, k: Seq<char>)
    requires
        lfu_distinct_keys(s),
    ensures
        lfu_distinct_keys(lfu_get_step(s, k)),
        lfu_get_step(s, k).len() == s.len(),
        lfu_assoc_map(lfu_get_step(s, k)) == lfu_assoc_map(s),
        lfu_has_key(s, k) ==> lfu_count_of(lfu_get_step(s, k), k) == bump(lfu_count_of(s, k)),
        forall|k2: Seq<char>|
            k2 != k && lfu_has_key(s, k2) ==> (#[trigger] lfu_count_of(lfu_get_step(s, k), k2))
                == lfu_count_of(s, k2),
{
    let sn = lfu_get_step(s, k);
    if lfu_has_key(s, k) {
        lemma_lfu_key_index_props(s, k);
        let i = lfu_key_index(s, k);
        assert(forall|j: int| 0 <= j < s.len() ==> #[trigger] sn[j].0 == s[j].0);
        assert(lfu_distinct_keys(sn));
        lemma_lfu_key_index_unique(sn, i);
        assert(lfu_count_of(sn, k) == bump(s[i].2));
        assert forall|k2: Seq<char>| k2 != k && lfu_has_key(s, k2) implies (#[trigger] lfu_count_of(
            sn,
            k2,
        )) == lfu_count_of(s, k2) && lfu_value_of(sn, k2) == lfu_value_of(s, k2) && lfu_has_key(
            sn,
            k2,
        ) by {
            lemma_lfu_key_index_props(s, k2);
            let j = lfu_key_index(s, k2);
            assert(j != i);
            assert(sn[j] == s[j]);
            lemma_lfu_key_index_unique(sn, j);
        }
        assert forall|k2: Seq<char>| #[trigger] lfu_has_key(sn, k2) implies lfu_has_key(s, k2) by {
            lemma_lfu_key_index_props(sn, k2);
            let j = lfu_key_index(sn, k2);
            assert(sn[j].0 == s[j].0);
        }
        assert forall|k2: Seq<char>| #[trigger] lfu_has_key(s, k2) implies lfu_has_key(sn, k2)
            && lfu_value_of(sn, k2) == lfu_value_of(s, k2) by {
            lemma_lfu_key_index_props(s, k2);
            let j = lfu_key_index(s, k2);
            assert(sn[j].0 == k2);
            lemma_lfu_key_index_unique(sn, j);
            lemma_lfu_key_index_unique(s, j);
            assert(lfu_value_of(sn, k2) == sn[j].1);
            assert(lfu_value_of(s, k2) == s[j].1);
            assert(sn[j].1 == s[j].1);
        }
        assert(lfu_assoc_map(sn) =~= lfu_assoc_map(s));
    }
}

/// A bounded key/value cache that evicts the least frequently used entry.
///
/// Entries are kept in insertion order, oldest first; each entry carries
/// the access counter for its key.  Eviction removes the first entry
/// holding the smallest counter, so the oldest-inserted entry among ties.
pub struct LFUMemoryCache<V> {
    entries: Vec<(String, V, u32)>,
    max_size: usize,
}

impl<V> View for LFUMemoryCache<V> {
    type V = Seq<(Seq<char>, V, u32)>;

    closed spec fn view(&self) -> Seq<(Seq<char>, V, u32)> {
        self.entries@.map_values(|e: (String, V, u32)| (e.0@, e.1, e.2))
    }
}

impl<V> LFUMemoryCache<V> {
    /// The capacity fixed at construction.
    pub closed spec fn capacity_spec(&self) -> nat {
        self.max_size as nat
    }

    /// Well-formedness: keys are distinct, the bound is respected, and the
    /// capacity is positive.
    pub open spec fn wf_spec(&self) -> bool {
        &&& lfu_distinct_keys(self@)
        &&& self@.len() <= self.capacity_spec()
        &&& self.capacity_spec() >= 1
    }

    /// Creates an empty cache holding at most `max_size` entries.
    pub fn new(max_size: usize) -> (r: Self)
        requires
            max_size >= 1,
        ensures
            r.wf_spec(),
            r@ == Seq::<(Seq<char>, V, u32)>::empty(),
            r.capacity_spec() == max_size,
    {
        let r = LFUMemoryCache { entries: Vec::new(), max_size };
        proof {
            assert(r@ =~= Seq::<(Seq<char>, V, u32)>::empty());
        }
        r
    }

    /// Linear scan for the entry carrying `key`.
    fn find_index(&self, key: &String) -> (r: Option<usize>)
        requires
            lfu_distinct_keys(self@),
        ensures
            (match r {
                Some(i) => {
                    &&& i < self@.len()
                    &&& self@[i as int].0 == key@
                    &&& lfu_has_key(self@, key@)
                    &&& lfu_key_index(self@, key@) == i
                },
                None => !lfu_has_key(self@, key@),
            }),
    {
        let mut i: usize = 0;
        while i < self.entries.len()
            invariant
                i <= self.entries.len(),
                lfu_distinct_keys(self@),
                self@.len() == self.entries.len(),
                forall|j: int| 0 <= j < i ==> self@[j].0 != key@,
            decreases self.entries.len() - i,
        {
            if self.entries[i].0 == *key {
                proof {
                    lemma_lfu_key_index_unique(self@, i as int);
                }
                return Some(i);
            }
            i += 1;
        }
        None
    }

    /// The key that an eviction would remove: the first key holding the
    /// smallest access counter, `None` only when the cache is empty.
    fn get_lfu_key(&self) -> (r: Option<String>)
        ensures
            (match r {
                Some(k) => self@.len() > 0 && k@ == self@[lfu_victim(self@)].0,
                None => self@.len() == 0,
            }),
    {
        if self.entries.is_empty() {
            return None;
        }
        let mut best: usize = 0;
        let mut i: usize = 1;
        while i < self.entries.len()
            invariant
                1 <= i <= self.entries.len(),
                self.entries.len() >= 1,
                best < i,
                self@.len() == self.entries.len(),
                best == lfu_min_upto(self@, i as int),
            decreases self.entries.len() - i,
        {
            if self.entries[i].2 < self.entries[best].2 {
                best = i;
            }
            i += 1;
        }
        Some(self.entries[best].0.clone())
    }

    /// Removes the least frequently used entry, if any.
    fn remove_lfu(&mut self)
        requires
            lfu_distinct_keys(old(self)@),
        ensures
            final(self).capacity_spec() == old(self).capacity_spec(),
            final(self)@ == (if old(self)@.len() == 0 {
                old(self)@
            } else {
                old(self)@.remove(lfu_victim(old(self)@))
            }),
    {
        let ghost s0 = self@;
        let victim = self.get_lfu_key();
        if let Some(key) = victim {
            proof {
                lemma_lfu_min_upto(s0, s0.len() as int);
                lemma_lfu_key_index_unique(s0, lfu_victim(s0));
            }
            let idx = self.find_index(&key);
            if let Some(i) = idx {
                self.entries.remove(i);
                proof {
                    assert(self@ =~= s0.remove(i as int));
                }
            }
        }
    }

    /// Puts `key` in the store with `value` and a counter of 1: an existing
    /// entry is overwritten in place, a new one appended.
    fn insert(&mut self, key: String, value: V)
        requires
            lfu_distinct_keys(old(self)@),
        ensures
            final(self).capacity_spec() == old(self).capacity_spec(),
            final(self)@ == (if lfu_has_key(old(self)@, key@) {
                old(self)@.update(lfu_key_index(old(self)@, key@), (key@, value, 1u32))
            } else {
                old(self)@.push((key@, value, 1u32))
            }),
    {
        let ghost s0 = self@;
        let idx = self.find_index(&key);
        match idx {
            Some(i) => {
                self.entries.set(i, (key, value, 1));
                proof {
                    assert(self@ =~= s0.update(i as int, (key@, value, 1u32)));
                }
            },
            None => {
                self.entries.push((key, value, 1));
                proof {
                    assert(self@ =~= s0.push((key@, value, 1u32)));
                }
            },
        }
    }
}

impl<V: Clone> MemoryCache<V> for LFUMemoryCache<V> {
    open spec fn contents(&self) -> Map<Seq<char>, V> {
        lfu_assoc_map(self@)
    }

    open spec fn num_entries(&self) -> nat {
        self@.len()
    }

    open spec fn capacity(&self) -> nat {
        self.capacity_spec()
    }

    open spec fn wf(&self) -> bool {
        self.wf_spec()
    }

    /// Stores `value` under `key` with its counter reset to 1; when the
    /// cache is full and the key new, the first entry holding the smallest
    /// counter is evicted first.
    fn set(&mut self, key: String, value: V)
        ensures
            final(self)@ == lfu_set_step(
                old(self)@,
                key@,
                value,
                old(self).capacity_spec(),
            ),
    {
        let ghost s0 = self@;
        let ghost cap = old(self).capacity_spec();
        proof {
            lemma_lfu_set_shape(s0, key@, value, cap);
        }
        let idx = self.find_index(&key);
        if idx.is_none() && self.entries.len() == self.max_size {
            proof {
                lemma_lfu_min_upto(s0, s0.len() as int);
                lemma_lfu_remove_at(s0, lfu_victim(s0));
                if s0[lfu_victim(s0)].0 == key@ {
                    lemma_lfu_key_index_unique(s0, lfu_victim(s0));
                }
            }
            self.remove_lfu();
            proof {
                assert(!lfu_has_key(self@, key@));
            }
        }
        self.insert(key, value);
        proof {
            assert(self@ == lfu_set_step(s0, key@, value, cap));
        }
    }

    /// On a hit, bumps the key's access counter and returns a clone of its
    /// value; a miss changes nothing.
    fn get(&mut self, key: &str) -> (r: Option<V>)
        ensures
            final(self)@ == lfu_get_step(old(self)@, key@),
            (match r {
                Some(v) => lfu_has_key(old(self)@, key@) && cloned::<V>(
                    lfu_value_of(old(self)@, key@),
                    v,
                ),
                None => !lfu_has_key(old(self)@, key@),
            }),
    {
        let ghost s0 = self@;
        proof {
            lemma_lfu_get_shape(s0, key@);
        }
        let owned: String = key.to_owned();
        let idx = self.find_index(&owned);
        match idx {
            Some(i) => {
                let e = self.entries.remove(i);
                let v = e.1.clone();
                let c2 = if e.2 < u32::MAX {
                    e.2 + 1
                } else {
                    e.2
                };
                self.entries.insert(i, (e.0, e.1, c2));
                proof {
                    assert(self@ =~= s0.update(
                        i as int,
                        (s0[i as int].0, s0[i as int].1, bump(s0[i as int].2)),
                    ));
                }
                Some(v)
            },
            None => None,
        }
    }
}

} // verus!
