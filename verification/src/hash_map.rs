//! A hash map with separate chaining and growth-only dynamic resizing.
//!
//! The map owns an array of buckets whose length (the capacity) is always a
//! power of two, starting at 16. Each bucket is a chain of key/value pairs
//! whose keys hash to that bucket's index. When the number of entries
//! reaches 3/4 of the capacity, the bucket array is rebuilt at twice the
//! size before the next entry is added.
//!
//! The abstract model of the map is a mathematical `Map` from abstract key
//! values (key views) to values; every operation is specified against that
//! model.

use crate::hash_key::HashKey;
use vstd::prelude::*;

verus! {

/// Number of buckets in a newly created map.
const INITIAL_CAPACITY: usize = 16;

pub struct HashMap<K: HashKey, V> {
    buckets: Vec<Vec<(K, V)>>,
    counter: usize,
    capacity: usize,
}

/// Whether `n` is a power of two.
pub open spec fn is_pow2(n: nat) -> bool
    decreases n,
{
    if n == 0 {
        false
    } else if n == 1 {
        true
    } else {
        n % 2 == 0 && is_pow2(n / 2)
    }
}

impl<K: HashKey, V> HashMap<K, V> {
    /// The bucket index that a key with abstract value `kv` selects in a
    /// table of `cap` buckets.
    pub open spec fn slot_of(kv: K::V, cap: int) -> int {
        K::key_hash(kv) as int % cap
    }

    /// Whether some pair of `chain` has abstract key `kv`.
    spec fn chain_has(chain: Seq<(K, V)>, kv: K::V) -> bool {
        exists|j: int| 0 <= j < chain.len() && (#[trigger] chain[j]).0@ == kv
    }

    /// The value paired with abstract key `kv` in `chain`.
    spec fn chain_at(chain: Seq<(K, V)>, kv: K::V) -> V {
        let j = choose|j: int| 0 <= j < chain.len() && (#[trigger] chain[j]).0@ == kv;
        chain[j].1
    }

    /// No two pairs of `chain` share an abstract key.
    spec fn chain_no_dups(chain: Seq<(K, V)>) -> bool {
        forall|j1: int, j2: int|
            0 <= j1 < j2 < chain.len() ==> (#[trigger] chain[j1]).0@ != (#[trigger] chain[j2]).0@
    }

    /// Every pair of `chain` selects slot `i` in a table of `cap` buckets.
    spec fn chain_all_slot(chain: Seq<(K, V)>, cap: int, i: int) -> bool {
        forall|j: int| 0 <= j < chain.len() ==> Self::slot_of((#[trigger] chain[j]).0@, cap) == i
    }

    /// Whether a table of buckets `bs`, indexed by `hash % cap`, holds
    /// abstract key `kv`. `bs` may be a prefix of a full table, in which
    /// case keys whose slot lies beyond the prefix are absent.
    spec fn tbl_contains(bs: Seq<Vec<(K, V)>>, cap: int, kv: K::V) -> bool {
        let i = Self::slot_of(kv, cap);
        0 <= i < bs.len() && Self::chain_has(bs[i]@, kv)
    }

    /// The value that table `bs` holds for abstract key `kv`.
    spec fn tbl_at(bs: Seq<Vec<(K, V)>>, cap: int, kv: K::V) -> V {
        Self::chain_at(bs[Self::slot_of(kv, cap)]@, kv)
    }

    /// The mathematical map held by table `bs`.
    spec fn tbl_map(bs: Seq<Vec<(K, V)>>, cap: int) -> Map<K::V, V> {
        Map::new(
            |kv: K::V| Self::tbl_contains(bs, cap, kv),
            |kv: K::V| Self::tbl_at(bs, cap, kv),
        )
    }

    /// Every chain of `bs` sits at the slot its keys select, with no key
    /// stored twice.
    spec fn tbl_wf(bs: Seq<Vec<(K, V)>>, cap: int) -> bool {
        &&& forall|i: int|
            0 <= i < bs.len() ==> Self::chain_all_slot((#[trigger] bs[i])@, cap, i)
        &&& forall|i: int| 0 <= i < bs.len() ==> Self::chain_no_dups((#[trigger] bs[i])@)
    }

    /// The number of buckets of the map.
    pub closed spec fn capacity(&self) -> nat {
        self.capacity as nat
    }

    /// Structural soundness of the map: the bucket array matches the
    /// capacity, which is a power of two between 16 and a machine bound
    /// that keeps the doubled capacity representable; every entry sits in
    /// the bucket its hash selects, no key is stored twice, and the entry
    /// counter equals the number of distinct keys.
    pub closed spec fn well_formed(&self) -> bool {
        &&& self.buckets@.len() == self.capacity
        &&& 16 <= self.capacity
        &&& 4 * self.capacity <= usize::MAX
        &&& is_pow2(self.capacity as nat)
        &&& Self::tbl_wf(self.buckets@, self.capacity as int)
        &&& self@.dom().finite()
        &&& self.counter == self@.dom().len()
    }
}

impl<K: HashKey, V> Default for HashMap<K, V> {
    fn default() -> (m: Self)
        ensures
            m.well_formed(),
            m@ == Map::<K::V, V>::empty(),
            m.capacity() == 16,
    {
        Self::new()
    }
}

impl<K: HashKey, V> View for HashMap<K, V> {
    type V = Map<K::V, V>;

    closed spec fn view(&self) -> Map<K::V, V> {
        Self::tbl_map(self.buckets@, self.capacity as int)
    }
}

impl<K: HashKey, V> HashMap<K, V> {
    /// Returns `n` empty chains.
    fn make_buckets(n: usize) -> (bs: Vec<Vec<(K, V)>>)
        ensures
            bs@.len() == n,
            forall|i: int| 0 <= i < n ==> (#[trigger] bs@[i])@ == Seq::<(K, V)>::empty(),
    {
        let mut bs: Vec<Vec<(K, V)>> = Vec::new();
        while bs.len() < n
            invariant
                bs@.len() <= n,
                forall|i: int| 0 <= i < bs@.len() ==> (#[trigger] bs@[i])@ == Seq::<(K, V)>::empty(),
            decreases n - bs@.len(),
        {
            bs.push(Vec::new());
        }
        bs
    }

    /// Returns an empty map with 16 buckets.
    pub fn new() -> (m: Self)
        ensures
            m.well_formed(),
            m@ == Map::<K::V, V>::empty(),
            m.capacity() == 16,
    {
        let buckets = Self::make_buckets(INITIAL_CAPACITY);
        let m = HashMap { buckets, counter: 0, capacity: INITIAL_CAPACITY };
        proof {
            assert(is_pow2(16)) by {
                reveal_with_fuel(is_pow2, 5);
            }
            assert(m@ =~= Map::<K::V, V>::empty());
            assert(m@.dom() =~= Set::<K::V>::empty());
        }
        m
    }

    /// Returns the number of entries in the map.
    pub fn len(&self) -> (n: usize)
        requires
            self.well_formed(),
        ensures
            n == self@.dom().len(),
    {
        self.counter
    }

    /// Returns `true` iff the map holds no entries.
    pub fn is_empty(&self) -> (r: bool)
        requires
            self.well_formed(),
        ensures
            r == (self@.dom().len() == 0),
    {
        self.counter == 0
    }

    /// The bucket index selected by `key` in a table of `capacity` buckets.
    fn bucket_index_for(key: &K, capacity: usize) -> (i: usize)
        requires
            capacity >= 1,
        ensures
            i as int == Self::slot_of(key@, capacity as int),
            i < capacity,
    {
        let h = key.hash_code();
        let c = capacity as u64;
        (h % c) as usize
    }

    /// The bucket index selected by `key` at the current capacity.
    fn bucket_index(&self, key: &K) -> (i: usize)
        requires
            self.well_formed(),
        ensures
            i as int == Self::slot_of(key@, self.capacity as int),
            i < self.buckets@.len(),
    {
        Self::bucket_index_for(key, self.capacity)
    }

    /// In a duplicate-free chain, the pair at position `j` is the one that
    /// `chain_at` selects for its key.
    proof fn lemma_chain_at_index(chain: Seq<(K, V)>, j: int)
        requires
            Self::chain_no_dups(chain),
            0 <= j < chain.len(),
        ensures
            Self::chain_has(chain, chain[j].0@),
            Self::chain_at(chain, chain[j].0@) == chain[j].1,
    {
        let kv = chain[j].0@;
        assert(Self::chain_has(chain, kv));
        let j2 = choose|j2: int| 0 <= j2 < chain.len() && (#[trigger] chain[j2]).0@ == kv;
        if j2 < j {
            assert(chain[j2].0@ != chain[j].0@);
        } else if j < j2 {
            assert(chain[j].0@ != chain[j2].0@);
        }
    }

    /// Looks up `key` and returns a reference to its value, or `None` if
    /// the key is absent.
    pub fn get(&self, key: K) -> (r: Option<&V>)
        requires
            self.well_formed(),
        ensures
            self@.dom().contains(key@) ==> (r matches Some(v) && *v == self@[key@]),
            !self@.dom().contains(key@) ==> r is None,
    {
        let i = self.bucket_index(&key);
        let bucket = &self.buckets[i];
        let n = bucket.len();
        let mut j: usize = 0;
        while j < n
            invariant
                j <= n,
                n == bucket@.len(),
                bucket@ == self.buckets@[i as int]@,
                i as int == Self::slot_of(key@, self.capacity as int),
                i < self.buckets@.len(),
                self.well_formed(),
                forall|j2: int| 0 <= j2 < j ==> (#[trigger] bucket@[j2]).0@ != key@,
            decreases n - j,
        {
            if bucket[j].0.key_eq(&key) {
                proof {
                    Self::lemma_chain_at_index(bucket@, j as int);
                }
                return Some(&bucket[j].1);
            }
            j += 1;
        }
        proof {
            assert(!Self::chain_has(bucket@, key@));
        }
        None
    }

    /// Whether a pair with the key exists in the map.
    pub fn contains(&self, key: K) -> (r: bool)
        requires
            self.well_formed(),
        ensures
            r == self@.dom().contains(key@),
    {
        self.get(key).is_some()
    }

    /// Removing the pair at position `j` of chain `i` removes exactly that
    /// pair's key from the map a table holds.
    proof fn lemma_tbl_remove_at(bs1: Seq<Vec<(K, V)>>, bs2: Seq<Vec<(K, V)>>, cap: int, i: int, j: int)
        requires
            Self::tbl_wf(bs1, cap),
            cap >= 1,
            bs2.len() == bs1.len(),
            0 <= i < bs1.len(),
            0 <= j < bs1[i]@.len(),
            bs2[i]@ == bs1[i]@.remove(j),
            forall|i2: int| 0 <= i2 < bs1.len() && i2 != i ==> (#[trigger] bs2[i2])@ == bs1[i2]@,
        ensures
            Self::tbl_wf(bs2, cap),
            Self::tbl_map(bs2, cap) =~= Self::tbl_map(bs1, cap).remove(bs1[i]@[j].0@),
    {
        let c1 = bs1[i]@;
        let c2 = bs2[i]@;
        let kv_rm = c1[j].0@;
        c1.remove_ensures(j);
        assert(Self::slot_of(kv_rm, cap) == i);

        assert forall|x: int| 0 <= x < c2.len() implies ((x < j ==> (#[trigger] c2[x]) == c1[x]) && (
        j <= x ==> c2[x] == c1[x + 1])) by {}

        assert(Self::chain_all_slot(c2, cap, i));
        assert(Self::chain_no_dups(c2)) by {
            assert forall|x1: int, x2: int| 0 <= x1 < x2 < c2.len() implies (#[trigger] c2[x1]).0@
                != (#[trigger] c2[x2]).0@ by {
                let y1 = if x1 < j { x1 } else { x1 + 1 };
                let y2 = if x2 < j { x2 } else { x2 + 1 };
                assert(c1[y1].0@ != c1[y2].0@);
            }
        }
        assert(Self::tbl_wf(bs2, cap));

        assert forall|kv: K::V| #[trigger]
            Self::tbl_contains(bs2, cap, kv) implies Self::tbl_contains(bs1, cap, kv) && kv
            != kv_rm by {
            let s = Self::slot_of(kv, cap);
            if s == i {
                let x = choose|x: int| 0 <= x < c2.len() && (#[trigger] c2[x]).0@ == kv;
                let y = if x < j { x } else { x + 1 };
                assert(c1[y].0@ == kv);
                if y < j {
                    assert(c1[y].0@ != c1[j].0@);
                } else {
                    assert(c1[j].0@ != c1[y].0@);
                }
            }
        }
        assert forall|kv: K::V|
            Self::tbl_contains(bs1, cap, kv) && kv != kv_rm implies #[trigger] Self::tbl_contains(
            bs2,
            cap,
            kv,
        ) by {
            let s = Self::slot_of(kv, cap);
            if s == i {
                let y = choose|y: int| 0 <= y < c1.len() && (#[trigger] c1[y]).0@ == kv;
                let x = if y < j { y } else { y - 1 };
                assert(c2[x].0@ == kv);
            }
        }
        assert forall|kv: K::V| #[trigger]
            Self::tbl_contains(bs2, cap, kv) implies Self::tbl_at(bs2, cap, kv) == Self::tbl_at(
            bs1,
            cap,
            kv,
        ) by {
            let s = Self::slot_of(kv, cap);
            if s == i {
                let x = choose|x: int| 0 <= x < c2.len() && (#[trigger] c2[x]).0@ == kv;
                let y = if x < j { x } else { x + 1 };
                Self::lemma_chain_at_index(c2, x);
                Self::lemma_chain_at_index(c1, y);
            }
        }
    }

    /// Appending a pair with a fresh key `kv` to the chain its hash
    /// selects adds exactly `kv` to the map a table holds.
    proof fn lemma_tbl_append(
        bs1: Seq<Vec<(K, V)>>,
        bs2: Seq<Vec<(K, V)>>,
        cap: int,
        i: int,
        kv: K::V,
        v: V,
    )
        requires
            Self::tbl_wf(bs1, cap),
            cap >= 1,
            bs2.len() == bs1.len(),
            0 <= i < bs1.len(),
            Self::slot_of(kv, cap) == i,
            !Self::chain_has(bs1[i]@, kv),
            bs2[i]@.len() == bs1[i]@.len() + 1,
            forall|x: int| 0 <= x < bs1[i]@.len() ==> (#[trigger] bs2[i]@[x]) == bs1[i]@[x],
            bs2[i]@[bs1[i]@.len() as int].0@ == kv,
            bs2[i]@[bs1[i]@.len() as int].1 == v,
            forall|i2: int| 0 <= i2 < bs1.len() && i2 != i ==> (#[trigger] bs2[i2])@ == bs1[i2]@,
        ensures
            Self::tbl_wf(bs2, cap),
            Self::tbl_map(bs2, cap) =~= Self::tbl_map(bs1, cap).insert(kv, v),
    {
        let c1 = bs1[i]@;
        let c2 = bs2[i]@;
        let last = c1.len() as int;

        assert(Self::chain_all_slot(c2, cap, i));
        assert(Self::chain_no_dups(c2)) by {
            assert forall|x1: int, x2: int| 0 <= x1 < x2 < c2.len() implies (#[trigger] c2[x1]).0@
                != (#[trigger] c2[x2]).0@ by {
                if x2 == last {
                    assert(!(c1[x1].0@ == kv));
                }
            }
        }
        assert(Self::tbl_wf(bs2, cap));

        assert forall|kv2: K::V| #[trigger]
            Self::tbl_contains(bs2, cap, kv2) implies Self::tbl_contains(bs1, cap, kv2) || kv2
            == kv by {
            let s = Self::slot_of(kv2, cap);
            if s == i && kv2 != kv {
                let x = choose|x: int| 0 <= x < c2.len() && (#[trigger] c2[x]).0@ == kv2;
                assert(x != last);
                assert(c1[x].0@ == kv2);
            }
        }
        assert(Self::tbl_contains(bs2, cap, kv)) by {
            assert(c2[last].0@ == kv);
        }
        assert forall|kv2: K::V|
            Self::tbl_contains(bs1, cap, kv2) implies #[trigger] Self::tbl_contains(
            bs2,
            cap,
            kv2,
        ) by {
            let s = Self::slot_of(kv2, cap);
            if s == i {
                let y = choose|y: int| 0 <= y < c1.len() && (#[trigger] c1[y]).0@ == kv2;
                assert(c2[y].0@ == kv2);
            }
        }
        assert(Self::tbl_at(bs2, cap, kv) == v) by {
            Self::lemma_chain_at_index(c2, last);
        }
        assert forall|kv2: K::V| #[trigger]
            Self::tbl_contains(bs1, cap, kv2) && kv2 != kv implies Self::tbl_at(bs2, cap, kv2)
            == Self::tbl_at(bs1, cap, kv2) by {
            let s = Self::slot_of(kv2, cap);
            if s == i {
                let y = choose|y: int| 0 <= y < c1.len() && (#[trigger] c1[y]).0@ == kv2;
                assert(c2[y].0@ == kv2);
                Self::lemma_chain_at_index(c1, y);
                Self::lemma_chain_at_index(c2, y);
            }
        }
    }

    /// Replacing the value of the pair at position `j` of chain `i`, while
    /// keeping its key, updates exactly that key's value in the map a
    /// table holds.
    proof fn lemma_tbl_update_at(
        bs1: Seq<Vec<(K, V)>>,
        bs2: Seq<Vec<(K, V)>>,
        cap: int,
        i: int,
        j: int,
        v: V,
    )
        requires
            Self::tbl_wf(bs1, cap),
            cap >= 1,
            bs2.len() == bs1.len(),
            0 <= i < bs1.len(),
            0 <= j < bs1[i]@.len(),
            bs2[i]@.len() == bs1[i]@.len(),
            forall|x: int|
                0 <= x < bs1[i]@.len() && x != j ==> (#[trigger] bs2[i]@[x]) == bs1[i]@[x],
            bs2[i]@[j].0@ == bs1[i]@[j].0@,
            bs2[i]@[j].1 == v,
            forall|i2: int| 0 <= i2 < bs1.len() && i2 != i ==> (#[trigger] bs2[i2])@ == bs1[i2]@,
        ensures
            Self::tbl_wf(bs2, cap),
            Self::tbl_map(bs2, cap) =~= Self::tbl_map(bs1, cap).insert(bs1[i]@[j].0@, v),
    {
        let c1 = bs1[i]@;
        let c2 = bs2[i]@;
        let kv = c1[j].0@;

        assert(Self::chain_all_slot(c2, cap, i)) by {
            assert forall|x: int| 0 <= x < c2.len() implies Self::slot_of(
                (#[trigger] c2[x]).0@,
                cap,
            ) == i by {
                assert(c2[x].0@ == c1[x].0@);
            }
        }
        assert(Self::chain_no_dups(c2)) by {
            assert forall|x1: int, x2: int| 0 <= x1 < x2 < c2.len() implies (#[trigger] c2[x1]).0@
                != (#[trigger] c2[x2]).0@ by {
                assert(c2[x1].0@ == c1[x1].0@);
                assert(c2[x2].0@ == c1[x2].0@);
            }
        }
        assert(Self::tbl_wf(bs2, cap));

        assert forall|kv2: K::V| #[trigger]
            Self::tbl_contains(bs2, cap, kv2) implies Self::tbl_contains(bs1, cap, kv2) by {
            let s = Self::slot_of(kv2, cap);
            if s == i {
                let x = choose|x: int| 0 <= x < c2.len() && (#[trigger] c2[x]).0@ == kv2;
                assert(c1[x].0@ == kv2);
            }
        }
        assert forall|kv2: K::V|
            Self::tbl_contains(bs1, cap, kv2) implies #[trigger] Self::tbl_contains(
            bs2,
            cap,
            kv2,
        ) by {
            let s = Self::slot_of(kv2, cap);
            if s == i {
                let y = choose|y: int| 0 <= y < c1.len() && (#[trigger] c1[y]).0@ == kv2;
                assert(c2[y].0@ == kv2);
            }
        }
        assert(Self::tbl_at(bs2, cap, kv) == v) by {
            Self::lemma_chain_at_index(c2, j);
        }
        assert forall|kv2: K::V| #[trigger]
            Self::tbl_contains(bs1, cap, kv2) && kv2 != kv implies Self::tbl_at(bs2, cap, kv2)
            == Self::tbl_at(bs1, cap, kv2) by {
            let s = Self::slot_of(kv2, cap);
            if s == i {
                let y = choose|y: int| 0 <= y < c1.len() && (#[trigger] c1[y]).0@ == kv2;
                assert(y != j);
                assert(c2[y].0@ == kv2);
                Self::lemma_chain_at_index(c1, y);
                Self::lemma_chain_at_index(c2, y);
            }
        }
    }

    /// Removes `key` from the map and returns its value, or returns `None`
    /// and leaves the map unchanged if the key is absent.
    pub fn remove(&mut self, key: K) -> (r: Option<V>)
        requires
            old(self).well_formed(),
        ensures
            final(self).well_formed(),
            final(self)@ == old(self)@.remove(key@),
            old(self)@.dom().contains(key@) ==> r == Some(old(self)@[key@]),
            !old(self)@.dom().contains(key@) ==> r is None,
            final(self).capacity() == old(self).capacity(),
    {
        let i = self.bucket_index(&key);
        let n = self.buckets[i].len();
        let mut j: usize = 0;
        while j < n
            invariant
                j <= n,
                n == self.buckets@[i as int]@.len(),
                i as int == Self::slot_of(key@, self.capacity as int),
                i < self.buckets@.len(),
                self.well_formed(),
                *self == *old(self),
                forall|j2: int|
                    0 <= j2 < j ==> (#[trigger] self.buckets@[i as int]@[j2]).0@ != key@,
            decreases n - j,
        {
            if self.buckets[i][j].0.key_eq(&key) {
                let ghost bs1 = self.buckets@;
                proof {
                    Self::lemma_chain_at_index(bs1[i as int]@, j as int);
                }
                let pair = self.buckets[i].remove(j);
                proof {
                    Self::lemma_tbl_remove_at(
                        bs1,
                        self.buckets@,
                        self.capacity as int,
                        i as int,
                        j as int,
                    );
                }
                self.counter = self.counter - 1;
                return Some(pair.1);
            }
            j += 1;
        }
        proof {
            assert(!Self::chain_has(self.buckets@[i as int]@, key@));
            assert(final(self)@ =~= old(self)@.remove(key@));
        }
        None
    }

    /// Inserts `key` with `value`. If the key is already present its value
    /// is replaced and the entry count is unchanged; otherwise the pair is
    /// added. When the entry count has reached 3/4 of the capacity, the
    /// table doubles its capacity first (checked against the pre-insert
    /// count), and only then places the new pair.
    ///
    /// The bound on the entry count is a machine limit: it keeps the entry
    /// counter and the doubled capacity representable in a `usize`.
    pub fn insert(&mut self, key: K, value: V)
        requires
            old(self).well_formed(),
            16 * old(self)@.dom().len() <= usize::MAX,
        ensures
            final(self).well_formed(),
            final(self)@ == old(self)@.insert(key@, value),
            final(self).capacity() == (if 4 * old(self)@.dom().len() >= 3 * old(self).capacity() {
                2 * old(self).capacity()
            } else {
                old(self).capacity()
            }),
    {
        if self.should_resize() {
            proof {
                assert(8 * self.capacity <= usize::MAX) by {
                    assert(3 * self.capacity <= 4 * self.counter);
                    assert(16 * self.counter <= usize::MAX);
                }
            }
            self.resize();
        }
        let ghost pre = *self;
        let i = self.bucket_index(&key);
        let n = self.buckets[i].len();
        let mut j: usize = 0;
        while j < n
            invariant
                j <= n,
                n == self.buckets@[i as int]@.len(),
                i as int == Self::slot_of(key@, self.capacity as int),
                i < self.buckets@.len(),
                self.well_formed(),
                *self == pre,
                pre@ == old(self)@,
                16 * old(self)@.dom().len() <= usize::MAX,
                pre.capacity() == (if 4 * old(self)@.dom().len() >= 3 * old(self).capacity() {
                    2 * old(self).capacity()
                } else {
                    old(self).capacity()
                }),
                forall|j2: int|
                    0 <= j2 < j ==> (#[trigger] self.buckets@[i as int]@[j2]).0@ != key@,
            decreases n - j,
        {
            if self.buckets[i][j].0.key_eq(&key) {
                let ghost bs1 = self.buckets@;
                self.buckets[i][j].1 = value;
                proof {
                    Self::lemma_tbl_update_at(
                        bs1,
                        self.buckets@,
                        self.capacity as int,
                        i as int,
                        j as int,
                        value,
                    );
                    assert(bs1[i as int]@[j as int].0@ == key@);
                    assert(self@ =~= pre@.insert(key@, value));
                    assert(self@.dom() =~= pre@.dom());
                }
                return;
            }
            j += 1;
        }
        let ghost bs1 = self.buckets@;
        let ghost gkey = key;
        proof {
            assert(!Self::chain_has(bs1[i as int]@, gkey@));
        }
        self.buckets[i].push((key, value));
        proof {
            Self::lemma_tbl_append(
                bs1,
                self.buckets@,
                self.capacity as int,
                i as int,
                gkey@,
                value,
            );
        }
        self.counter = self.counter + 1;
    }

    /// Empties every bucket. The entry count drops to zero; the capacity
    /// is unchanged.
    pub fn clear(&mut self)
        requires
            old(self).well_formed(),
        ensures
            final(self).well_formed(),
            final(self)@ == Map::<K::V, V>::empty(),
            final(self).capacity() == old(self).capacity(),
    {
        let n = self.buckets.len();
        let mut i: usize = 0;
        while i < n
            invariant
                i <= n,
                n == self.buckets@.len(),
                self.capacity == old(self).capacity,
                self.counter == old(self).counter,
                n == self.capacity,
                forall|i2: int| 0 <= i2 < i ==> (#[trigger] self.buckets@[i2])@.len() == 0,
            decreases n - i,
        {
            self.buckets[i].clear();
            i += 1;
        }
        self.counter = 0;
        proof {
            assert(final(self)@ =~= Map::<K::V, V>::empty());
            assert(final(self)@.dom() =~= Set::<K::V>::empty());
        }
    }

    /// Doubles the capacity and moves every entry into a fresh bucket
    /// array, re-placing each at the slot its hash selects under the new
    /// capacity. The contents of the map are unchanged.
    fn resize(&mut self)
        requires
            old(self).well_formed(),
            8 * old(self).capacity <= usize::MAX,
        ensures
            final(self).well_formed(),
            final(self)@ == old(self)@,
            final(self).capacity() == 2 * old(self).capacity(),
            final(self).counter == old(self).counter,
    {
        let ghost orig = self@;
        let ghost old_cap = self.capacity as int;
        let new_capacity = self.capacity * 2;
        let ghost new_cap = new_capacity as int;
        let mut new_buckets = Self::make_buckets(new_capacity);
        let mut src: Vec<Vec<(K, V)>> = Vec::new();
        std::mem::swap(&mut src, &mut self.buckets);

        while src.len() > 0
            invariant
                new_buckets@.len() == new_cap,
                new_cap == new_capacity as int,
                new_cap == 2 * old_cap,
                16 <= old_cap,
                src@.len() <= old_cap,
                Self::tbl_wf(src@, old_cap),
                Self::tbl_wf(new_buckets@, new_cap),
                forall|kv: K::V| #[trigger]
                    orig.dom().contains(kv) <==> (Self::tbl_contains(src@, old_cap, kv)
                        || Self::tbl_contains(new_buckets@, new_cap, kv)),
                forall|kv: K::V|
                    !(#[trigger] Self::tbl_contains(src@, old_cap, kv)
                        && #[trigger] Self::tbl_contains(new_buckets@, new_cap, kv)),
                forall|kv: K::V| #[trigger]
                    Self::tbl_contains(src@, old_cap, kv) ==> Self::tbl_at(src@, old_cap, kv)
                        == orig[kv],
                forall|kv: K::V| #[trigger]
                    Self::tbl_contains(new_buckets@, new_cap, kv) ==> Self::tbl_at(
                        new_buckets@,
                        new_cap,
                        kv,
                    ) == orig[kv],
            decreases src@.len(),
        {
            let ghost src_before = src@;
            let mut chain = src.pop().unwrap();
            let ghost i_src = src@.len() as int;

            proof {
                assert(chain@ == src_before[i_src]@);
                assert(Self::chain_no_dups(chain@));
                assert(Self::chain_all_slot(chain@, old_cap, i_src));
                assert(Self::tbl_wf(src@, old_cap)) by {
                    assert forall|i2: int| 0 <= i2 < src@.len() implies (#[trigger] src@[i2])
                        == src_before[i2] by {}
                }
                assert forall|kv: K::V| #[trigger]
                    Self::tbl_contains(src_before, old_cap, kv) implies (Self::chain_has(
                    chain@,
                    kv,
                ) || Self::tbl_contains(src@, old_cap, kv)) by {
                    let s = Self::slot_of(kv, old_cap);
                    if s < i_src {
                        assert(src@[s] == src_before[s]);
                    }
                }
                assert forall|kv: K::V| #[trigger]
                    Self::chain_has(chain@, kv) implies Self::slot_of(kv, old_cap) == i_src by {
                    let x = choose|x: int| 0 <= x < chain@.len() && (#[trigger] chain@[x]).0@ == kv;
                }
                assert forall|kv: K::V| #[trigger]
                    Self::tbl_contains(src@, old_cap, kv) implies Self::tbl_contains(
                    src_before,
                    old_cap,
                    kv,
                ) && Self::tbl_at(src@, old_cap, kv) == Self::tbl_at(src_before, old_cap, kv) by {
                    let s = Self::slot_of(kv, old_cap);
                    assert(src@[s] == src_before[s]);
                }
                assert forall|kv: K::V| #[trigger]
                    Self::chain_has(chain@, kv) implies Self::tbl_contains(
                    src_before,
                    old_cap,
                    kv,
                ) by {
                    assert(Self::slot_of(kv, old_cap) == i_src);
                }
                assert forall|kv: K::V| #[trigger]
                    Self::chain_has(chain@, kv) implies Self::chain_at(chain@, kv) == orig[kv] by {
                    assert(Self::tbl_contains(src_before, old_cap, kv));
                }
            }

            while chain.len() > 0
                invariant
                    new_buckets@.len() == new_cap,
                    new_cap == new_capacity as int,
                    new_cap == 2 * old_cap,
                    16 <= old_cap,
                    src@.len() == i_src,
                    i_src < old_cap,
                    Self::tbl_wf(src@, old_cap),
                    Self::tbl_wf(new_buckets@, new_cap),
                    Self::chain_no_dups(chain@),
                    Self::chain_all_slot(chain@, old_cap, i_src),
                    forall|kv: K::V| #[trigger]
                        orig.dom().contains(kv) <==> (Self::chain_has(chain@, kv)
                            || Self::tbl_contains(src@, old_cap, kv) || Self::tbl_contains(
                            new_buckets@,
                            new_cap,
                            kv,
                        )),
                    forall|kv: K::V|
                        !(#[trigger] Self::chain_has(chain@, kv) && #[trigger] Self::tbl_contains(
                            src@,
                            old_cap,
                            kv,
                        )),
                    forall|kv: K::V|
                        !(#[trigger] Self::chain_has(chain@, kv) && #[trigger] Self::tbl_contains(
                            new_buckets@,
                            new_cap,
                            kv,
                        )),
                    forall|kv: K::V|
                        !(#[trigger] Self::tbl_contains(src@, old_cap, kv)
                            && #[trigger] Self::tbl_contains(new_buckets@, new_cap, kv)),
                    forall|kv: K::V| #[trigger]
                        Self::chain_has(chain@, kv) ==> Self::chain_at(chain@, kv) == orig[kv],
                    forall|kv: K::V| #[trigger]
                        Self::tbl_contains(src@, old_cap, kv) ==> Self::tbl_at(src@, old_cap, kv)
                            == orig[kv],
                    forall|kv: K::V| #[trigger]
                        Self::tbl_contains(new_buckets@, new_cap, kv) ==> Self::tbl_at(
                            new_buckets@,
                            new_cap,
                            kv,
                        ) == orig[kv],
                decreases chain@.len(),
            {
                let ghost chain_before = chain@;
                let pair = chain.pop().unwrap();
                let ghost gpair = pair;
                let ghost last = chain@.len() as int;
                let ghost kv = gpair.0@;

                proof {
                    assert(gpair == chain_before[last]);
                    assert(Self::chain_has(chain_before, kv)) by {
                        assert(chain_before[last].0@ == kv);
                    }
                    assert(Self::slot_of(kv, old_cap) == i_src);
                    assert(orig.dom().contains(kv));
                    assert(orig[kv] == gpair.1) by {
                        Self::lemma_chain_at_index(chain_before, last);
                    }
                    assert(!Self::tbl_contains(new_buckets@, new_cap, kv));
                }

                let idx = Self::bucket_index_for(&pair.0, new_capacity);
                let ghost nb1 = new_buckets@;
                proof {
                    assert(!Self::chain_has(nb1[idx as int]@, kv));
                }
                new_buckets[idx].push(pair);

                proof {
                    Self::lemma_tbl_append(nb1, new_buckets@, new_cap, idx as int, kv, gpair.1);
                    let m1 = Self::tbl_map(nb1, new_cap);
                    let m2 = Self::tbl_map(new_buckets@, new_cap);
                    assert(m2 == m1.insert(kv, gpair.1));
                    assert forall|kv2: K::V| #[trigger]
                        Self::tbl_contains(new_buckets@, new_cap, kv2) implies (kv2 == kv
                        || Self::tbl_contains(nb1, new_cap, kv2)) by {
                        assert(m2.dom().contains(kv2));
                    }
                    assert forall|kv2: K::V| #[trigger]
                        Self::tbl_contains(nb1, new_cap, kv2) || kv2 == kv implies Self::tbl_contains(
                        new_buckets@,
                        new_cap,
                        kv2,
                    ) by {
                        assert(m1.insert(kv, gpair.1).dom().contains(kv2));
                        assert(m2.dom().contains(kv2));
                    }
                    assert forall|kv2: K::V| #[trigger]
                        Self::tbl_contains(new_buckets@, new_cap, kv2) implies Self::tbl_at(
                        new_buckets@,
                        new_cap,
                        kv2,
                    ) == orig[kv2] by {
                        assert(m2[kv2] == Self::tbl_at(new_buckets@, new_cap, kv2));
                        if kv2 == kv {
                            assert(m2[kv2] == gpair.1);
                        } else {
                            assert(m2[kv2] == m1[kv2]);
                            assert(Self::tbl_contains(nb1, new_cap, kv2));
                        }
                    }
                    // the drained chain lost exactly `kv`
                    assert forall|kv2: K::V| #[trigger]
                        Self::chain_has(chain_before, kv2) implies (kv2 == kv || Self::chain_has(
                        chain@,
                        kv2,
                    )) by {
                        let x = choose|x: int|
                            0 <= x < chain_before.len() && (#[trigger] chain_before[x]).0@ == kv2;
                        if x < last {
                            assert(chain@[x].0@ == kv2);
                        }
                    }
                    assert forall|kv2: K::V| #[trigger]
                        Self::chain_has(chain@, kv2) implies Self::chain_has(
                        chain_before,
                        kv2,
                    ) && kv2 != kv by {
                        let x = choose|x: int|
                            0 <= x < chain@.len() && (#[trigger] chain@[x]).0@ == kv2;
                        assert(chain_before[x].0@ == kv2);
                        assert(chain_before[x].0@ != chain_before[last].0@);
                    }
                    assert(Self::chain_no_dups(chain@)) by {
                        assert forall|x1: int, x2: int|
                            0 <= x1 < x2 < chain@.len() implies (#[trigger] chain@[x1]).0@ != (
                        #[trigger] chain@[x2]).0@ by {
                            assert(chain@[x1] == chain_before[x1]);
                            assert(chain@[x2] == chain_before[x2]);
                        }
                    }
                    assert(Self::chain_all_slot(chain@, old_cap, i_src)) by {
                        assert forall|x: int| 0 <= x < chain@.len() implies Self::slot_of(
                            (#[trigger] chain@[x]).0@,
                            old_cap,
                        ) == i_src by {
                            assert(chain@[x] == chain_before[x]);
                        }
                    }
                    assert forall|kv2: K::V| #[trigger]
                        Self::chain_has(chain@, kv2) implies Self::chain_at(chain@, kv2)
                        == orig[kv2] by {
                        let x = choose|x: int|
                            0 <= x < chain@.len() && (#[trigger] chain@[x]).0@ == kv2;
                        assert(chain_before[x].0@ == kv2);
                        Self::lemma_chain_at_index(chain@, x);
                        Self::lemma_chain_at_index(chain_before, x);
                    }
                }
            }
        }

        self.buckets = new_buckets;
        self.capacity = new_capacity;

        proof {
            assert(final(self)@ =~= orig) by {
                assert forall|kv: K::V| #[trigger]
                    Self::tbl_contains(final(self).buckets@, new_cap, kv) <==> orig.dom().contains(
                    kv,
                ) by {}
            }
            assert(is_pow2(new_capacity as nat)) by {
                assert(new_capacity as nat % 2 == 0);
                assert(new_capacity as nat / 2 == old(self).capacity as nat);
            }
            assert(final(self)@.dom() =~= orig.dom());
        }
    }

    /// Whether the load factor has reached 3/4, so that the table must
    /// grow before the next entry is added.
    fn should_resize(&self) -> (r: bool)
        requires
            self.well_formed(),
            4 * self.counter <= usize::MAX,
        ensures
            r == (4 * self@.dom().len() >= 3 * self.capacity()),
    {
        !self.buckets.is_empty() && self.counter * 4 >= self.buckets.len() * 3
    }
}

/// A lookup finds the most recently inserted value for a key: right after
/// an insert the key is present with the inserted value, and a later
/// insert of the same key replaces it.
pub proof fn lemma_insert_latest_wins<KV, V>(m: Map<KV, V>, k: KV, v1: V, v2: V)
    ensures
        m.insert(k, v1).dom().contains(k),
        m.insert(k, v1)[k] == v1,
        m.insert(k, v1).insert(k, v2)[k] == v2,
{
}

/// The entry count follows the distinct keys: inserting a key that is
/// already present leaves it unchanged, inserting a fresh key grows it by
/// one, removing a present key shrinks it by one, and removing an absent
/// key leaves it unchanged. Inserting one key any number of times can
/// therefore never account for more than one entry.
pub proof fn lemma_len_tracks_distinct_keys<KV, V>(m: Map<KV, V>, k: KV, v: V)
    requires
        m.dom().finite(),
    ensures
        m.dom().contains(k) ==> m.insert(k, v).dom().len() == m.dom().len(),
        !m.dom().contains(k) ==> m.insert(k, v).dom().len() == m.dom().len() + 1,
        m.dom().contains(k) ==> m.remove(k).dom().len() == m.dom().len() - 1,
        !m.dom().contains(k) ==> m.remove(k).dom().len() == m.dom().len(),
{
    assert(m.insert(k, v).dom() =~= m.dom().insert(k));
    assert(m.remove(k).dom() =~= m.dom().remove(k));
}

/// Removing an absent key changes nothing: the map, and with it the entry
/// count, stays as it was.
pub proof fn lemma_remove_absent_is_noop<KV, V>(m: Map<KV, V>, k: KV)
    requires
        !m.dom().contains(k),
    ensures
        m.remove(k) == m,
{
    assert(m.remove(k) =~= m);
}

/// After removing a key, looking that key up finds nothing.
pub proof fn lemma_remove_then_absent<KV, V>(m: Map<KV, V>, k: KV)
    ensures
        !m.remove(k).dom().contains(k),
{
}

/// A cleared map holds no entries: its entry count is zero and every key,
/// present before or not, is absent.
pub proof fn lemma_cleared_map_is_empty<KV, V>(m: Map<KV, V>, k: KV)
    requires
        m == Map::<KV, V>::empty(),
    ensures
        m.dom().len() == 0,
        !m.dom().contains(k),
{
    assert(m.dom() =~= Set::<KV>::empty());
}

/// Inserting a key, whether or not the table grows underneath, preserves
/// every other key's mapping: no entry is lost or duplicated by a rehash.
pub proof fn lemma_insert_preserves_others<KV, V>(m: Map<KV, V>, k: KV, v: V, k2: KV)
    requires
        k2 != k,
    ensures
        m.insert(k, v).dom().contains(k2) == m.dom().contains(k2),
        m.dom().contains(k2) ==> m.insert(k, v)[k2] == m[k2],
{
}

} // verus!
