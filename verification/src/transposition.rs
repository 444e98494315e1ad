//! A fixed-size hash table from 64-bit hashes to values, probed quadratically, that
//! may drop entries: a table of transpositions for a search.
use vstd::arithmetic::power2::pow2;
use vstd::prelude::*;

verus! {

/// A key of the table: its hash. A hash of zero marks an empty slot.
pub trait TranspositionHash {
    /// The hash of the key.
    spec fn hash_spec(&self) -> u64;

    fn hash(&self) -> (r: u64)
        ensures
            r == self.hash_spec(),
    ;
}

/// A 64-bit word is a key that is its own hash.
impl TranspositionHash for u64 {
    open spec fn hash_spec(&self) -> u64 {
        *self
    }

    fn hash(&self) -> (r: u64) {
        *self
    }
}

/// Slots probed per access.
pub const PROBE_LIMIT: usize = 16;

/// `n` is a power of two below 2^64.
pub open spec fn is_pow2(n: int) -> bool {
    exists|k: nat| k < 64 && n == pow2(k)
}

/// The slot probed after `idx`, the `inc`-th step of the probe.
pub open spec fn next_slot(idx: usize, inc: usize, mask: usize) -> usize {
    ((idx + inc) as usize) & mask
}

/// What a lookup of hash `h` finds from slot `idx` on, at step `inc` of the probe:
/// the value of the first slot holding `h`, nothing at the first empty slot or once
/// the steps are used up.
pub open spec fn lookup_from<V>(keys: Seq<u64>, vals: Seq<Option<V>>, mask: usize, h: u64, idx: usize, inc: usize) -> Option<V>
    decreases PROBE_LIMIT + 1 - inc,
{
    if inc > PROBE_LIMIT || idx >= keys.len() {
        None
    } else if keys[idx as int] == h {
        vals[idx as int]
    } else if keys[idx as int] == 0 {
        None
    } else {
        lookup_from(keys, vals, mask, h, next_slot(idx, inc, mask), (inc + 1) as usize)
    }
}

/// The probe for hash `h` from slot `idx` at step `inc` meets a slot holding `h` or
/// an empty slot before its steps are used up.
pub open spec fn probe_hits(keys: Seq<u64>, mask: usize, h: u64, idx: usize, inc: usize) -> bool
    decreases PROBE_LIMIT + 1 - inc,
{
    if inc > PROBE_LIMIT || idx >= keys.len() {
        false
    } else if keys[idx as int] == h || keys[idx as int] == 0 {
        true
    } else {
        probe_hits(keys, mask, h, next_slot(idx, inc, mask), (inc + 1) as usize)
    }
}

/// The probe for hash `h` goes from slot `a` at step `ia` to slot `b` at step `ib`
/// over slots that hold another key.
pub open spec fn reaches(keys: Seq<u64>, mask: usize, h: u64, a: usize, ia: usize, b: usize, ib: usize) -> bool
    decreases ib - ia,
{
    if ia >= ib {
        ia == ib && a == b
    } else {
        &&& a < keys.len()
        &&& keys[a as int] != h
        &&& keys[a as int] != 0
        &&& reaches(keys, mask, h, next_slot(a, ia, mask), (ia + 1) as usize, b, ib)
    }
}

/// A lookup that passes over other keys finds what it finds from where it got to.
proof fn lemma_reaches_lookup<V>(keys: Seq<u64>, vals: Seq<Option<V>>, mask: usize, h: u64, a: usize, ia: usize, b: usize, ib: usize)
    requires
        reaches(keys, mask, h, a, ia, b, ib),
        ib <= PROBE_LIMIT + 1,
    ensures
        lookup_from(keys, vals, mask, h, a, ia) == lookup_from(keys, vals, mask, h, b, ib),
    decreases ib - ia,
{
    if ia < ib {
        lemma_reaches_lookup(keys, vals, mask, h, next_slot(a, ia, mask), (ia + 1) as usize, b, ib);
    }
}

/// A probe that passes over other keys meets what it meets from where it got to.
proof fn lemma_reaches_hits(keys: Seq<u64>, mask: usize, h: u64, a: usize, ia: usize, b: usize, ib: usize)
    requires
        reaches(keys, mask, h, a, ia, b, ib),
        ib <= PROBE_LIMIT + 1,
    ensures
        probe_hits(keys, mask, h, a, ia) == probe_hits(keys, mask, h, b, ib),
    decreases ib - ia,
{
    if ia < ib {
        lemma_reaches_hits(keys, mask, h, next_slot(a, ia, mask), (ia + 1) as usize, b, ib);
    }
}

/// Where empty slots hold no value, a lookup of hash zero finds nothing.
proof fn lemma_lookup_zero<V>(keys: Seq<u64>, vals: Seq<Option<V>>, mask: usize, idx: usize, inc: usize)
    requires
        vals.len() == keys.len(),
        forall|i: int| 0 <= i < keys.len() && keys[i] == 0 ==> #[trigger] vals[i] is None,
    ensures
        lookup_from(keys, vals, mask, 0, idx, inc) is None,
    decreases PROBE_LIMIT + 1 - inc,
{
    if inc <= PROBE_LIMIT && idx < keys.len() && keys[idx as int] != 0 {
        lemma_lookup_zero(keys, vals, mask, next_slot(idx, inc, mask), (inc + 1) as usize);
    }
}

/// One more step over another key.
proof fn lemma_reaches_step(keys: Seq<u64>, mask: usize, h: u64, a: usize, ia: usize, b: usize, ib: usize)
    requires
        reaches(keys, mask, h, a, ia, b, ib),
        b < keys.len(),
        keys[b as int] != h,
        keys[b as int] != 0,
        ib < usize::MAX,
    ensures
        reaches(keys, mask, h, a, ia, next_slot(b, ib, mask), (ib + 1) as usize),
    decreases ib - ia,
{
    if ia < ib {
        lemma_reaches_step(keys, mask, h, next_slot(a, ia, mask), (ia + 1) as usize, b, ib);
    } else {
        assert(reaches(keys, mask, h, next_slot(a, ia, mask), (ia + 1) as usize, next_slot(b, ib, mask), (ib + 1) as usize));
    }
}

/// Changing slot `b`, which holds `h` or nothing, keeps the way to it.
proof fn lemma_reaches_frame(keys: Seq<u64>, keys2: Seq<u64>, mask: usize, h: u64, a: usize, ia: usize, b: usize, ib: usize)
    requires
        reaches(keys, mask, h, a, ia, b, ib),
        b < keys.len(),
        keys[b as int] == h || keys[b as int] == 0,
        keys2.len() == keys.len(),
        forall|i: int| 0 <= i < keys.len() && i != b ==> keys2[i] == keys[i],
    ensures
        reaches(keys2, mask, h, a, ia, b, ib),
    decreases ib - ia,
{
    if ia < ib {
        lemma_reaches_frame(keys, keys2, mask, h, next_slot(a, ia, mask), (ia + 1) as usize, b, ib);
    }
}

/// The table: a key and a value per slot.
pub struct ApproxQuadraticProbingHashTable<K: TranspositionHash, V> {
    keys: Vec<u64>,
    vals: Vec<Option<V>>,
    capacity: usize,
    mask: usize,
    size: usize,
    marker: core::marker::PhantomData<K>,
}

impl<K: TranspositionHash, V: Copy> ApproxQuadraticProbingHashTable<K, V> {
    /// A slot per key and value, a power of two of them, and the mask one below.
    pub closed spec fn wf(&self) -> bool {
        &&& self.keys@.len() == self.capacity
        &&& self.vals@.len() == self.capacity
        &&& is_pow2(self.capacity as int)
        &&& self.capacity <= usize::MAX / 4
        &&& self.mask == self.capacity - 1
        &&& forall|i: int| 0 <= i < self.capacity && self.keys@[i] == 0 ==> #[trigger] self.vals@[i] is None
    }

    pub closed spec fn keys_spec(&self) -> Seq<u64> {
        self.keys@
    }

    pub closed spec fn vals_spec(&self) -> Seq<Option<V>> {
        self.vals@
    }

    pub closed spec fn capacity_spec(&self) -> usize {
        self.capacity
    }

    pub closed spec fn size_spec(&self) -> usize {
        self.size
    }

    /// What a lookup of hash `h` finds.
    pub open spec fn find(&self, h: u64) -> Option<V> {
        lookup_from(self.keys_spec(), self.vals_spec(), (self.capacity_spec() - 1) as usize, h, ((h as usize) & (self.capacity_spec() - 1) as usize) as usize, 1)
    }

    /// An empty table of `capacity` slots, a power of two.
    pub fn new(capacity: usize) -> (r: Self)
        requires
            is_pow2(capacity as int),
            capacity <= usize::MAX / 4,
        ensures
            r.wf(),
            r.capacity_spec() == capacity,
            r.size_spec() == 0,
            r.keys_spec() == Seq::new(capacity as nat, |i: int| 0u64),
            r.vals_spec() == Seq::new(capacity as nat, |i: int| None::<V>),
    {
        proof {
            let k = choose|k: nat| k < 64 && capacity == pow2(k);
            vstd::arithmetic::power2::lemma_pow2_pos(k);
        }
        let mut keys: Vec<u64> = Vec::new();
        let mut vals: Vec<Option<V>> = Vec::new();
        let mut i: usize = 0;
        while i < capacity
            invariant
                i <= capacity,
                keys@.len() == i,
                vals@.len() == i,
                forall|j: int| 0 <= j < i ==> #[trigger] keys@[j] == 0,
                forall|j: int| 0 <= j < i ==> #[trigger] vals@[j] == None::<V>,
            decreases capacity - i,
        {
            keys.push(0);
            vals.push(None);
            i = i + 1;
        }
        let r = Self { keys, vals, capacity, mask: capacity - 1, size: 0, marker: core::marker::PhantomData };
        assert(r.keys@ =~= Seq::new(capacity as nat, |i: int| 0u64));
        assert(r.vals@ =~= Seq::new(capacity as nat, |i: int| None::<V>));
        r
    }

    /// An empty table with room for `num` entries at two thirds full: the smallest
    /// power of two whose double is at least three times `num`.
    pub fn enough_to_hold(num: usize) -> (r: Self)
        requires
            num <= usize::MAX / 12,
        ensures
            r.wf(),
            r.size_spec() == 0,
            is_pow2(r.capacity_spec() as int),
            r.capacity_spec() * 2 >= num * 3,
            r.capacity_spec() == 1 || r.capacity_spec() < num * 3,
    {
        let mut capacity: usize = 1;
        let ghost mut k: nat = 0;
        proof {
            vstd::arithmetic::power2::lemma2_to64();
        }
        while capacity * 2 < num * 3
            invariant
                num <= usize::MAX / 12,
                capacity == pow2(k),
                capacity >= 1,
                k < 64,
                capacity == 1 || capacity < num * 3,
            decreases num * 3 - capacity,
        {
            proof {
                vstd::arithmetic::power2::lemma_pow2_pos(k);
                vstd::arithmetic::power2::lemma_pow2_adds(k, 1);
                vstd::arithmetic::power2::lemma2_to64();
                vstd::arithmetic::power2::lemma2_to64_rest();
                if k + 1 > 62 {
                    vstd::arithmetic::power2::lemma_pow2_strictly_increases(62, k + 1);
                }
            }
            capacity = capacity * 2;
            proof {
                k = k + 1;
            }
        }
        proof {
            assert(is_pow2(capacity as int));
        }
        Self::new(capacity)
    }

    /// The value of the first slot holding the hash of `key` along its probe; none
    /// at an empty slot or after the probe's steps.
    pub fn lookup(&self, key: &K) -> (r: Option<V>)
        requires
            self.wf(),
        ensures
            r == self.find(key.hash_spec()),
            key.hash_spec() == 0 ==> r is None,
    {
        proof {
            if key.hash_spec() == 0 {
                lemma_lookup_zero(self.keys@, self.vals@, self.mask, (0u64 as usize) & self.mask, 1);
            }
        }
        self.lookup_hash(key.hash())
    }

    /// The value of the first slot holding `hash` along its probe.
    fn lookup_hash(&self, hash: u64) -> (r: Option<V>)
        requires
            self.wf(),
        ensures
            r == self.find(hash),
    {
        let mask = self.mask;
        let idx0 = (hash as usize) & mask;
        let mut idx = idx0;
        let mut inc: usize = 1;
        proof {
            assert(idx0 <= mask) by (bit_vector)
                requires
                    idx0 == (hash as usize) & mask,
            ;
        }
        while inc <= PROBE_LIMIT
            invariant
                self.wf(),
                mask == self.mask,
                1 <= inc <= PROBE_LIMIT + 1,
                idx < self.capacity,
                idx0 == (hash as usize) & mask,
                reaches(self.keys@, mask, hash, idx0, 1, idx, inc),
            decreases PROBE_LIMIT + 1 - inc,
        {
            let key_here = self.keys[idx];
            if key_here == hash {
                proof {
                    lemma_reaches_lookup(self.keys@, self.vals@, mask, hash, idx0, 1, idx, inc);
                }
                return self.vals[idx];
            }
            if key_here == 0 {
                proof {
                    lemma_reaches_lookup(self.keys@, self.vals@, mask, hash, idx0, 1, idx, inc);
                }
                return None;
            }
            proof {
                lemma_reaches_step(self.keys@, mask, hash, idx0, 1, idx, inc);
            }
            let sum = idx + inc;
            let next = sum & mask;
            proof {
                assert(next <= mask) by (bit_vector)
                    requires
                        next == sum & mask,
                ;
            }
            idx = next;
            inc = inc + 1;
        }
        proof {
            lemma_reaches_lookup(self.keys@, self.vals@, mask, hash, idx0, 1, idx, inc);
        }
        None
    }

    /// Offers `value` for `key`. Past two thirds full the table only looks the key
    /// up. Otherwise the probe stops at the first slot holding the key's hash, where a
    /// value already there is returned and an empty value is filled, or at the first
    /// empty slot, which takes the key and the value; a key hashing to zero, or a probe
    /// out of steps, stores nothing. A value that was stored is what a lookup of the
    /// key then gives, and the call then returns none.
    pub fn insert(&mut self, key: &K, value: V) -> (r: Option<V>)
        requires
            old(self).wf(),
        ensures
            final(self).wf(),
            final(self).capacity_spec() == old(self).capacity_spec(),
            final(self).vals_spec() != old(self).vals_spec() ==> r is None && final(self).find(key.hash_spec()) == Some(value),
            r matches Some(v) ==> final(self).find(key.hash_spec()) == Some(v),
            r == old(self).find(key.hash_spec()),
            final(self).find(key.hash_spec()) == if old(self).find(key.hash_spec()) is None && key.hash_spec() != 0
                && old(self).size_spec() * 3 <= old(self).capacity_spec() * 2 && probe_hits(
                old(self).keys_spec(),
                (old(self).capacity_spec() - 1) as usize,
                key.hash_spec(),
                ((key.hash_spec() as usize) & (old(self).capacity_spec() - 1) as usize) as usize,
                1,
            ) {
                Some(value)
            } else {
                old(self).find(key.hash_spec())
            },
            forall|i: int| 0 <= i < old(self).keys_spec().len() && old(self).keys_spec()[i] != 0 ==> #[trigger] final(self).keys_spec()[i] == old(self).keys_spec()[i],
            forall|i: int| 0 <= i < old(self).vals_spec().len() && old(self).vals_spec()[i] is Some ==> #[trigger] final(self).vals_spec()[i] == old(self).vals_spec()[i],
            key.hash_spec() == 0 ==> r is None && final(self).keys_spec() == old(self).keys_spec() && final(self).vals_spec()
                == old(self).vals_spec(),
    {
        let hash = key.hash();
        let r = self.insert_hash(hash, value);
        assert(r matches Some(v) ==> self.find(hash) == Some(v));
        r
    }

    /// Offers `value` for `hash`, as `insert` does for a key of that hash.
    fn insert_hash(&mut self, hash: u64, value: V) -> (r: Option<V>)
        requires
            old(self).wf(),
        ensures
            final(self).wf(),
            final(self).capacity_spec() == old(self).capacity_spec(),
            final(self).vals_spec() != old(self).vals_spec() ==> r is None && final(self).find(hash) == Some(value),
            r matches Some(v) ==> final(self).find(hash) == Some(v),
            forall|i: int| 0 <= i < old(self).keys_spec().len() && old(self).keys_spec()[i] != 0 ==> #[trigger] final(self).keys_spec()[i] == old(self).keys_spec()[i],
            forall|i: int| 0 <= i < old(self).vals_spec().len() && old(self).vals_spec()[i] is Some ==> #[trigger] final(self).vals_spec()[i] == old(self).vals_spec()[i],
            r == old(self).find(hash),
            final(self).find(hash) == if old(self).find(hash) is None && hash != 0 && old(self).size_spec() * 3 <= old(self).capacity_spec() * 2
                && probe_hits(old(self).keys_spec(), (old(self).capacity_spec() - 1) as usize, hash, ((hash as usize) & (old(self).capacity_spec() - 1) as usize) as usize, 1) {
                Some(value)
            } else {
                old(self).find(hash)
            },
            hash == 0 ==> r is None && final(self).keys_spec() == old(self).keys_spec() && final(self).vals_spec() == old(self).vals_spec(),
    {
        if (self.size as u128) * 3 > (self.capacity as u128) * 2 {
            proof {
                if hash == 0 {
                    lemma_lookup_zero(self.keys@, self.vals@, self.mask, (hash as usize) & self.mask, 1);
                }
            }
            return self.lookup_hash(hash);
        }
        if hash == 0 {
            proof {
                lemma_lookup_zero(self.keys@, self.vals@, self.mask, (hash as usize) & self.mask, 1);
            }
            return None;
        }
        let mask = self.mask;
        let idx0 = (hash as usize) & mask;
        let mut idx = idx0;
        let mut inc: usize = 1;
        proof {
            assert(idx0 <= mask) by (bit_vector)
                requires
                    idx0 == (hash as usize) & mask,
            ;
        }
        while inc <= PROBE_LIMIT
            invariant
                self.wf(),
                self.keys@ == old(self).keys@,
                self.vals@ == old(self).vals@,
                self.capacity == old(self).capacity,
                mask == self.mask,
                1 <= inc <= PROBE_LIMIT + 1,
                idx < self.capacity,
                idx0 == (hash as usize) & mask,
                hash != 0,
                self.size == old(self).size,
                old(self).size * 3 <= old(self).capacity * 2,
                reaches(self.keys@, mask, hash, idx0, 1, idx, inc),
            decreases PROBE_LIMIT + 1 - inc,
        {
            let key_found = self.keys[idx];
            if key_found == hash || key_found == 0 {
                let ghost k0 = self.keys@;
                if key_found == 0 {
                    self.keys.set(idx, hash);
                    self.size = self.size.wrapping_add(1);
                    proof {
                        lemma_reaches_frame(k0, self.keys@, mask, hash, idx0, 1, idx, inc);
                    }
                }
                proof {
                    lemma_reaches_lookup(self.keys@, self.vals@, mask, hash, idx0, 1, idx, inc);
                    lemma_reaches_lookup(old(self).keys@, old(self).vals@, mask, hash, idx0, 1, idx, inc);
                    lemma_reaches_hits(old(self).keys@, mask, hash, idx0, 1, idx, inc);
                }
                match self.vals[idx] {
                    Some(v) => {
                        return Some(v);
                    },
                    None => {
                        let ghost v0 = self.vals@;
                        self.vals.set(idx, Some(value));
                        proof {
                            lemma_reaches_lookup(self.keys@, self.vals@, mask, hash, idx0, 1, idx, inc);
                        }
                        return None;
                    },
                }
            }
            proof {
                lemma_reaches_step(self.keys@, mask, hash, idx0, 1, idx, inc);
            }
            let sum = idx + inc;
            let next = sum & mask;
            proof {
                assert(next <= mask) by (bit_vector)
                    requires
                        next == sum & mask,
                ;
            }
            idx = next;
            inc = inc + 1;
        }
        proof {
            lemma_reaches_lookup(self.keys@, self.vals@, mask, hash, idx0, 1, idx, inc);
            lemma_reaches_hits(self.keys@, mask, hash, idx0, 1, idx, inc);
        }
        None
    }
}

} // verus!
