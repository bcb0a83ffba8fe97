//! Storage and lookup table for well distributed keys of 128 bits.
//!
//! The table is an open-addressing array of slots.  A slot that holds the
//! sentinel key is empty.  The table's view is the map from the stored keys to
//! their values.

use vstd::prelude::*;
use vstd::arithmetic::power2::*;

verus! {

/// One slot of the table: a key and the value stored under it.
#[derive(Clone, Copy)]
pub struct HashNodeData<T: Copy> {
    pub key: u128,
    pub value: T,
}

/// Where a probe stands: the slot it looks at, the key bits that are left to
/// derive hops from, and whether it has fallen back to sweeping the slots in
/// order.
pub struct Probe {
    pub idx: usize,
    pub bits: u128,
    pub sweep: bool,
}

/// The distance of one hop: the low byte of the remaining key bits, or one
/// slot where that byte is zero.
pub open spec fn hop(bits: u128) -> u128 {
    if bits & 0xff == 0 {
        1
    } else {
        bits & 0xff
    }
}

/// The slot that a probe starts at.
pub open spec fn probe_start(key: u128, mask: usize) -> Probe {
    Probe { idx: (key as usize) & mask, bits: key >> 24, sweep: false }
}

/// The step from one probe to the next.  While key bits are left, the probe
/// hops by a distance derived from them and drops one bit.  When none is left
/// it sweeps all slots from the first one on, so every slot is visited.
pub open spec fn probe_next(p: Probe, mask: usize) -> Probe {
    if p.sweep {
        Probe { idx: (p.idx + 1) as usize, bits: 0, sweep: true }
    } else if p.bits != 0 {
        Probe {
            idx: ((((p.idx as u128) + hop(p.bits)) as u128) & (mask as u128)) as usize,
            bits: p.bits >> 1,
            sweep: false,
        }
    } else {
        Probe { idx: 0, bits: 0, sweep: true }
    }
}

/// The `n`-th probe for `key` in a table with the given mask.
pub open spec fn probe(key: u128, mask: usize, n: nat) -> Probe
    decreases n,
{
    if n == 0 {
        probe_start(key, mask)
    } else {
        probe_next(probe(key, mask, (n - 1) as nat), mask)
    }
}

/// The number of slots among `slots` that hold a key.
pub open spec fn occupied<T: Copy>(slots: Seq<HashNodeData<T>>, null_key: u128) -> nat
    decreases slots.len(),
{
    if slots.len() == 0 {
        0
    } else {
        occupied(slots.drop_last(), null_key) + if slots.last().key != null_key {
            1nat
        } else {
            0nat
        }
    }
}

proof fn lemma_occupied_bound<T: Copy>(slots: Seq<HashNodeData<T>>, null_key: u128)
    ensures
        occupied(slots, null_key) <= slots.len(),
        (forall|i: int| 0 <= i < slots.len() ==> slots[i].key != null_key) ==> occupied(
            slots,
            null_key,
        ) == slots.len(),
    decreases slots.len(),
{
    if slots.len() > 0 {
        lemma_occupied_bound(slots.drop_last(), null_key);
        assert forall|i: int| 0 <= i < slots.drop_last().len() implies slots.drop_last()[i]
            == slots[i] by {}
    }
}

proof fn lemma_occupied_update<T: Copy>(
    slots: Seq<HashNodeData<T>>,
    null_key: u128,
    i: int,
    e: HashNodeData<T>,
)
    requires
        0 <= i < slots.len(),
    ensures
        occupied(slots.update(i, e), null_key) == occupied(slots, null_key) + (if e.key
            != null_key {
            1int
        } else {
            0int
        }) - (if slots[i].key != null_key {
            1int
        } else {
            0int
        }),
    decreases slots.len(),
{
    let s2 = slots.update(i, e);
    if i == slots.len() - 1 {
        assert(s2.drop_last() =~= slots.drop_last());
    } else {
        lemma_occupied_update(slots.drop_last(), null_key, i, e);
        assert(s2.drop_last() =~= slots.drop_last().update(i, e));
    }
}

proof fn lemma_occupied_empty<T: Copy>(slots: Seq<HashNodeData<T>>, null_key: u128)
    requires
        forall|i: int| 0 <= i < slots.len() ==> slots[i].key == null_key,
    ensures
        occupied(slots, null_key) == 0,
    decreases slots.len(),
{
    if slots.len() > 0 {
        lemma_occupied_empty(slots.drop_last(), null_key);
    }
}

/// The number of slots after a value was stored in a table of `cap` slots
/// that holds `n` keys with it: a table of a single slot doubles
/// beforehand, and a table in which half of the slots are in use doubles
/// afterwards.
pub open spec fn grown_capacity(cap: nat, n: nat) -> nat {
    let room = if cap < 2 {
        2 * cap
    } else {
        cap
    };
    if n >= room / 2 {
        2 * room
    } else {
        room
    }
}

/// What a lookup found: the slot that holds the key, or the empty slot that
/// ends the key's probe sequence.
pub enum PossibleIdx {
    Found(usize),
    Empty(usize),
}

/// An open-addressing table from 128-bit keys to values.  Its view is the
/// map from its keys to their values, and `wf` is what its constructor
/// establishes and its methods keep.
pub struct LargeKeyTable<T: Copy> {
    table: Vec<HashNodeData<T>>,
    n_elements: usize,
    null_value: T,
    null_key: u128,
    lookup_mask: usize,
    table_size_log2: u8,
    hops: Ghost<Map<u128, nat>>,
}

impl<T: Copy> View for LargeKeyTable<T> {
    type V = Map<u128, T>;

    closed spec fn view(&self) -> Map<u128, T> {
        self.contents()
    }
}

impl<T: Copy> LargeKeyTable<T> {
    /// The sentinel key that marks an empty slot.  It is never a key of the
    /// table.
    pub closed spec fn spec_null_key(&self) -> u128 {
        self.null_key
    }

    /// The number of slots.
    pub closed spec fn spec_capacity(&self) -> nat {
        self.table@.len()
    }

    /// The binary logarithm of the number of slots.
    pub closed spec fn spec_size_log2(&self) -> u8 {
        self.table_size_log2
    }

    /// The map from the keys of the table to the values in their slots.
    spec fn contents(&self) -> Map<u128, T> {
        Map::new(
            |k: u128| self.hops@.contains_key(k),
            |k: u128| self.table@[self.home(k)].value,
        )
    }

    proof fn lemma_dom(&self)
        ensures
            self.contents().dom() == self.hops@.dom(),
    {
        assert(self.contents().dom() =~= self.hops@.dom());
    }

    /// The slot that `key` lives in, where the table holds it.
    spec fn home(&self, key: u128) -> int {
        probe(key, self.lookup_mask, self.hops@[key]).idx as int
    }

    /// Everything that holds of a table but its load: the slots and the view
    /// agree, and every stored key is reached from the start of its probe
    /// sequence over occupied slots only.
    spec fn inv(&self) -> bool {
        &&& self.table@.len() == self.lookup_mask + 1
        &&& self.table@.len() <= usize::MAX
        &&& self.table@.len() == pow2(self.table_size_log2 as nat)
        &&& self.n_elements == occupied(self.table@, self.null_key)
        &&& self.n_elements < self.table@.len()
        &&& self.hops@.dom().finite()
        &&& self.hops@.dom().len() == self.n_elements
        &&& forall|i: int|
            0 <= i < self.table@.len() && (#[trigger] self.table@[i]).key != self.null_key ==> {
                let k = self.table@[i].key;
                &&& self.contents().contains_key(k)
                &&& self.contents()[k] == self.table@[i].value
                &&& self.home(k) == i
            }
        &&& forall|k: u128| #[trigger]
            self.contents().contains_key(k) ==> {
                &&& k != self.null_key
                &&& self.hops@.contains_key(k)
                &&& 0 <= self.home(k) < self.table@.len()
                &&& self.table@[self.home(k)].key == k
            }
        &&& forall|k: u128, m: nat|
            self.contents().contains_key(k) && m < self.hops@[k] ==> {
                &&& (#[trigger] probe(k, self.lookup_mask, m)).idx < self.table@.len()
                &&& self.table@[probe(k, self.lookup_mask, m).idx as int].key != self.null_key
            }
    }

    /// The table is well formed: its slots and its view agree, and fewer than
    /// half of the slots are in use.
    pub closed spec fn wf(&self) -> bool {
        &&& self.inv()
        &&& 2 * self.n_elements < self.table@.len()
    }

    /// Whether the table can double once more, so that `add` may be called.
    pub open spec fn spec_has_room(&self) -> bool {
        self.spec_capacity() <= usize::MAX / 4
    }

    pub proof fn lemma_wf_facts(&self)
        requires
            self.wf(),
        ensures
            self@.dom().finite(),
            !self@.contains_key(self.spec_null_key()),
            2 * self@.dom().len() < self.spec_capacity(),
            self.spec_capacity() == pow2(self.spec_size_log2() as nat),
            self.spec_capacity() <= usize::MAX,
    {
        self.lemma_dom();
        if self.contents().contains_key(self.null_key) {
            assert(false);
        }
    }

    /// A vector of `n` empty slots.
    fn empty_slots(n: usize, null_key: u128, null_value: T) -> (v: Vec<HashNodeData<T>>)
        ensures
            v@.len() == n,
            forall|i: int| 0 <= i < n ==> (#[trigger] v@[i]).key == null_key,
    {
        let mut v: Vec<HashNodeData<T>> = Vec::new();
        let mut i: usize = 0;
        while i < n
            invariant
                i <= n,
                v@.len() == i,
                forall|j: int| 0 <= j < i ==> (#[trigger] v@[j]).key == null_key,
            decreases n - i,
        {
            v.push(HashNodeData { key: null_key, value: null_value });
            i = i + 1;
        }
        v
    }

    /// An empty table of `2^initial_capacity_log2` slots, in which `null_key`
    /// marks an empty slot.
    pub fn new(initial_capacity_log2: u8, null_key: u128, null_value: T) -> (t: Self)
        requires
            pow2(initial_capacity_log2 as nat) <= usize::MAX,
        ensures
            t.wf(),
            t@ == Map::<u128, T>::empty(),
            t.spec_null_key() == null_key,
            t.spec_size_log2() == initial_capacity_log2,
            t.spec_capacity() == pow2(initial_capacity_log2 as nat),
    {
        let mut next_size: usize = 1;
        let mut i: u8 = 0;
        proof {
            lemma2_to64();
        }
        while i < initial_capacity_log2
            invariant
                i <= initial_capacity_log2,
                next_size >= 1,
                next_size == pow2(i as nat),
                pow2(initial_capacity_log2 as nat) <= usize::MAX,
            decreases initial_capacity_log2 - i,
        {
            proof {
                lemma_pow2_unfold((i + 1) as nat);
                if i + 1 < initial_capacity_log2 {
                    lemma_pow2_strictly_increases((i + 1) as nat, initial_capacity_log2 as nat);
                }
            }
            next_size = next_size * 2;
            i = i + 1;
        }
        let next_mask = next_size - 1;
        let table = Self::empty_slots(next_size, null_key, null_value);
        proof {
            lemma_occupied_empty(table@, null_key);
        }
        LargeKeyTable {
            table,
            n_elements: 0,
            null_value,
            null_key,
            lookup_mask: next_mask,
            table_size_log2: initial_capacity_log2,
            hops: Ghost(Map::empty()),
        }
    }

    /// The `m`-th probe for `key` looked at an occupied slot that holds
    /// another key.
    spec fn passed(&self, key: u128, m: nat) -> bool {
        let i = probe(key, self.lookup_mask, m).idx;
        &&& i < self.table@.len()
        &&& self.table@[i as int].key != self.null_key
        &&& self.table@[i as int].key != key
    }

    /// The `n`-th probe for `key` looks at slot `i`, and all probes before it
    /// looked at occupied slots.
    spec fn reaches(&self, key: u128, n: nat, i: usize) -> bool {
        &&& probe(key, self.lookup_mask, n).idx == i
        &&& forall|m: nat| m < n ==> #[trigger] self.passed(key, m)
    }

    proof fn lemma_absent(&self, key: u128, n: nat, i: usize)
        requires
            self.inv(),
            self.reaches(key, n, i),
            i < self.table@.len(),
            self.table@[i as int].key == self.null_key,
        ensures
            !self.contents().contains_key(key),
    {
        if self.contents().contains_key(key) {
            let h = self.hops@[key];
            if h < n {
                assert(self.passed(key, h));
            } else if h > n {
                assert(probe(key, self.lookup_mask, n).idx == i);
            }
            assert(false);
        }
    }

    /// Walks the probe sequence of `key` to the slot that holds it, or to the
    /// empty slot that ends the sequence.
    fn get_idx(&self, key: u128) -> (r: (PossibleIdx, Ghost<nat>))
        requires
            self.inv(),
            key != self.null_key,
        ensures
            match r.0 {
                PossibleIdx::Found(i) => {
                    &&& i < self.table@.len()
                    &&& self.table@[i as int].key == key
                    &&& self.contents().contains_key(key)
                },
                PossibleIdx::Empty(i) => {
                    &&& i < self.table@.len()
                    &&& self.table@[i as int].key == self.null_key
                    &&& !self.contents().contains_key(key)
                    &&& self.reaches(key, r.1@, i)
                },
            },
    {
        let mask = self.lookup_mask;
        let low_key: usize = #[verifier::truncate] (key as usize);
        let mut idx: usize = low_key & mask;
        assert(low_key & mask <= mask) by (bit_vector);
        let mut bits: u128 = key >> 24;
        let ghost mut n: nat = 0;
        loop
            invariant
                self.inv(),
                key != self.null_key,
                mask == self.lookup_mask,
                idx < self.table@.len(),
                probe(key, mask, n) == (Probe { idx, bits, sweep: false }),
                forall|m: nat| m < n ==> #[trigger] self.passed(key, m),
            ensures
                bits == 0,
                self.passed(key, n),
            decreases bits,
        {
            let entry = self.table[idx];
            if entry.key == key {
                return (PossibleIdx::Found(idx), Ghost(n));
            }
            if entry.key == self.null_key {
                proof {
                    self.lemma_absent(key, n, idx);
                }
                return (PossibleIdx::Empty(idx), Ghost(n));
            }
            if bits == 0 {
                break ;
            }
            let low: u128 = bits & 0xff;
            let step: u128 = if low == 0 {
                1
            } else {
                low
            };
            assert(low <= 0xff) by (bit_vector)
                requires
                    low == bits & 0xff,
            ;
            let wide: u128 = (idx as u128) + step;
            let mask_wide: u128 = mask as u128;
            let next: u128 = wide & mask_wide;
            assert(next <= mask_wide) by (bit_vector)
                requires
                    next == wide & mask_wide,
            ;
            assert(bits >> 1 < bits) by (bit_vector)
                requires
                    bits != 0,
            ;
            proof {
                assert(probe(key, mask, n + 1) == probe_next(probe(key, mask, n), mask));
                n = n + 1;
            }
            idx = next as usize;
            bits = bits >> 1;
        }
        let ghost n0 = n;
        let mut j: usize = 0;
        proof {
            assert(probe(key, mask, n + 1) == probe_next(probe(key, mask, n), mask));
            n = n + 1;
        }
        while j < self.table.len()
            invariant
                self.inv(),
                key != self.null_key,
                mask == self.lookup_mask,
                j <= self.table@.len(),
                probe(key, mask, n) == (Probe { idx: j, bits: 0, sweep: true }),
                forall|m: nat| m < n ==> #[trigger] self.passed(key, m),
                forall|i: int| 0 <= i < j ==> (#[trigger] self.table@[i]).key != self.null_key,
            decreases self.table@.len() - j,
        {
            let entry = self.table[j];
            if entry.key == key {
                return (PossibleIdx::Found(j), Ghost(n));
            }
            if entry.key == self.null_key {
                proof {
                    self.lemma_absent(key, n, j);
                }
                return (PossibleIdx::Empty(j), Ghost(n));
            }
            proof {
                assert(probe(key, mask, n + 1) == probe_next(probe(key, mask, n), mask));
                n = n + 1;
            }
            j = j + 1;
        }
        proof {
            lemma_occupied_bound(self.table@, self.null_key);
            assert(false);
        }
        (PossibleIdx::Empty(0), Ghost(0))
    }

    /// Stores `value` under `key` in a table that has a slot to spare.
    fn place(&mut self, key: u128, value: T)
        requires
            old(self).inv(),
            key != old(self).null_key,
            old(self).n_elements + 1 < old(self).table@.len(),
        ensures
            final(self).inv(),
            final(self).contents() == old(self).contents().insert(key, value),
            final(self).table@.len() == old(self).table@.len(),
            final(self).null_key == old(self).null_key,
            final(self).table_size_log2 == old(self).table_size_log2,
            final(self).n_elements == if old(self).contents().contains_key(key) {
                old(self).n_elements as int
            } else {
                old(self).n_elements + 1
            },
    {
        let (r, Ghost(n)) = self.get_idx(key);
        let ghost before = *self;
        match r {
            PossibleIdx::Found(idx) => {
                proof {
                    lemma_occupied_update(
                        self.table@,
                        self.null_key,
                        idx as int,
                        HashNodeData { key, value },
                    );
                    assert(self.contents().insert(key, value).dom() =~= self.contents().dom());
                }
                self.table.set(idx, HashNodeData { key, value });
                proof {
                    assert forall|i: int|
                        0 <= i < self.table@.len() && (#[trigger] self.table@[i]).key
                            != self.null_key implies {
                        let k = self.table@[i].key;
                        &&& self.contents().contains_key(k)
                        &&& self.contents()[k] == self.table@[i].value
                        &&& self.home(k) == i
                    } by {
                        assert(before.table@[i].key != before.null_key);
                    }
                    assert forall|k: u128| #[trigger]
                        self.contents().contains_key(k) implies {
                        &&& k != self.null_key
                        &&& self.hops@.contains_key(k)
                        &&& 0 <= self.home(k) < self.table@.len()
                        &&& self.table@[self.home(k)].key == k
                    } by {
                        assert(before.contents().contains_key(k));
                    }
                    assert forall|k: u128, m: nat|
                        self.contents().contains_key(k) && m < self.hops@[k] implies {
                        &&& (#[trigger] probe(k, self.lookup_mask, m)).idx < self.table@.len()
                        &&& self.table@[probe(k, self.lookup_mask, m).idx as int].key
                            != self.null_key
                    } by {
                        assert(before.contents().contains_key(k));
                    }
                }
            },
            PossibleIdx::Empty(idx) => {
                proof {
                    lemma_occupied_update(
                        self.table@,
                        self.null_key,
                        idx as int,
                        HashNodeData { key, value },
                    );
                }
                self.n_elements = self.n_elements + 1;
                self.table.set(idx, HashNodeData { key, value });
                self.hops = Ghost(self.hops@.insert(key, n));
                proof {
                    assert forall|i: int|
                        0 <= i < self.table@.len() && (#[trigger] self.table@[i]).key
                            != self.null_key implies {
                        let k = self.table@[i].key;
                        &&& self.contents().contains_key(k)
                        &&& self.contents()[k] == self.table@[i].value
                        &&& self.home(k) == i
                    } by {
                        if i != idx {
                            assert(before.table@[i].key != before.null_key);
                        }
                    }
                    assert forall|k: u128| #[trigger]
                        self.contents().contains_key(k) implies {
                        &&& k != self.null_key
                        &&& self.hops@.contains_key(k)
                        &&& 0 <= self.home(k) < self.table@.len()
                        &&& self.table@[self.home(k)].key == k
                    } by {
                        if k != key {
                            assert(before.contents().contains_key(k));
                        }
                    }
                    assert forall|k: u128, m: nat|
                        self.contents().contains_key(k) && m < self.hops@[k] implies {
                        &&& (#[trigger] probe(k, self.lookup_mask, m)).idx < self.table@.len()
                        &&& self.table@[probe(k, self.lookup_mask, m).idx as int].key
                            != self.null_key
                    } by {
                        if k != key {
                            assert(before.contents().contains_key(k));
                        } else {
                            assert(before.passed(key, m));
                        }
                    }
                }
            },
        }
    }

    /// Doubles the number of slots and stores every key anew.
    fn grow(&mut self)
        requires
            old(self).inv(),
            old(self).table@.len() <= usize::MAX / 2,
        ensures
            final(self).inv(),
            final(self).contents() == old(self).contents(),
            final(self).table@.len() == 2 * old(self).table@.len(),
            final(self).null_key == old(self).null_key,
            final(self).n_elements == old(self).n_elements,
    {
        let old_len = self.table.len();
        let new_len = old_len * 2;
        proof {
            lemma2_to64();
            if self.table_size_log2 >= 64 {
                if self.table_size_log2 > 64 {
                    lemma_pow2_strictly_increases(64, self.table_size_log2 as nat);
                }
                assert(false);
            }
            lemma_pow2_unfold((self.table_size_log2 + 1) as nat);
        }
        let slots = Self::empty_slots(new_len, self.null_key, self.null_value);
        proof {
            lemma_occupied_empty(slots@, self.null_key);
        }
        let mut fresh = LargeKeyTable {
            table: slots,
            n_elements: 0,
            null_value: self.null_value,
            null_key: self.null_key,
            lookup_mask: new_len - 1,
            table_size_log2: self.table_size_log2 + 1,
            hops: Ghost(Map::empty()),
        };
        let mut i: usize = 0;
        while i < old_len
            invariant
                *self == *old(self),
                self.inv(),
                old_len == self.table@.len(),
                new_len == 2 * old_len,
                i <= old_len,
                fresh.inv(),
                fresh.table@.len() == new_len,
                fresh.null_key == self.null_key,
                fresh.table_size_log2 == self.table_size_log2 + 1,
                fresh.n_elements == occupied(self.table@.take(i as int), self.null_key),
                fresh.n_elements <= i,
                forall|k: u128| #[trigger]
                    fresh.contents().contains_key(k) ==> {
                        &&& self.contents().contains_key(k)
                        &&& self.home(k) < i
                        &&& fresh.contents()[k] == self.contents()[k]
                    },
                forall|k: u128| #[trigger]
                    self.contents().contains_key(k) && self.home(k) < i
                        ==> fresh.contents().contains_key(k),
            decreases old_len - i,
        {
            let entry = self.table[i];
            proof {
                assert(self.table@.take(i + 1).drop_last() =~= self.table@.take(i as int));
            }
            if entry.key != self.null_key {
                proof {
                    assert(self.home(entry.key) == i);
                }
                fresh.place(entry.key, entry.value);
            }
            proof {
                assert forall|k: u128| #[trigger]
                    self.contents().contains_key(k) && self.home(k) < i + 1
                        implies fresh.contents().contains_key(k) by {
                    if self.home(k) == i {
                        assert(self.table@[i as int].key == k);
                    }
                }
            }
            i = i + 1;
        }
        proof {
            assert(self.table@.take(old_len as int) =~= self.table@);
            assert(fresh.contents() =~= self.contents());
        }
        self.table = fresh.table;
        self.n_elements = fresh.n_elements;
        self.lookup_mask = fresh.lookup_mask;
        self.table_size_log2 = fresh.table_size_log2;
        self.hops = fresh.hops;
    }

    /// The value stored under `key`, if there is one.
    pub fn get(&self, key: u128) -> (r: Option<T>)
        requires
            self.wf(),
        ensures
            r == if self@.contains_key(key) {
                Some(self@[key])
            } else {
                None
            },
    {
        if key == self.null_key {
            return None;
        }
        let (r, _) = self.get_idx(key);
        match r {
            PossibleIdx::Found(idx) => Some(self.table[idx].value),
            PossibleIdx::Empty(_) => None,
        }
    }

    /// Whether `after` is the table with another value in the slot `idx`.
    spec fn value_changed(&self, after: Self, idx: int) -> bool {
        &&& after.table@ == self.table@.update(
            idx,
            HashNodeData { key: self.table@[idx].key, value: after.table@[idx].value },
        )
        &&& after.n_elements == self.n_elements
        &&& after.null_key == self.null_key
        &&& after.lookup_mask == self.lookup_mask
        &&& after.table_size_log2 == self.table_size_log2
        &&& after.hops@ == self.hops@
    }

    proof fn lemma_value_changed(&self, after: Self, idx: int)
        requires
            self.wf(),
            0 <= idx < self.table@.len(),
            self.table@[idx].key != self.null_key,
            self.value_changed(after, idx),
        ensures
            after.wf(),
            after.contents() == self.contents().insert(
                self.table@[idx].key,
                after.table@[idx].value,
            ),
    {
        let key = self.table@[idx].key;
        let new_value = after.table@[idx].value;
        lemma_occupied_update(
            self.table@,
            self.null_key,
            idx,
            HashNodeData { key, value: new_value },
        );
        assert forall|i: int|
            0 <= i < after.table@.len() && (#[trigger] after.table@[i]).key
                != after.null_key implies {
            let k = after.table@[i].key;
            &&& after.contents().contains_key(k)
            &&& after.contents()[k] == after.table@[i].value
            &&& after.home(k) == i
        } by {
            assert(self.table@[i].key != self.null_key);
        }
        assert forall|k: u128| #[trigger] after.contents().contains_key(k) implies {
            &&& k != after.null_key
            &&& after.hops@.contains_key(k)
            &&& 0 <= after.home(k) < after.table@.len()
            &&& after.table@[after.home(k)].key == k
        } by {
            assert(self.contents().contains_key(k));
        }
        assert forall|k: u128, m: nat|
            after.contents().contains_key(k) && m < after.hops@[k] implies {
            &&& (#[trigger] probe(k, after.lookup_mask, m)).idx < after.table@.len()
            &&& after.table@[probe(k, after.lookup_mask, m).idx as int].key != after.null_key
        } by {
            assert(self.contents().contains_key(k));
        }
        assert(after.contents() =~= self.contents().insert(key, new_value)) by {
            assert forall|k: u128| after.contents().contains_key(k) implies after.contents()[k]
                == self.contents().insert(key, new_value)[k] by {
                assert(self.contents().contains_key(k));
            }
        }
    }

    /// The value stored under `key`, if there is one, to be changed in its
    /// slot.
    pub fn get_mut(&mut self, key: u128) -> (r: Option<&mut T>)
        requires
            old(self).wf(),
        ensures
            match r {
                Some(v) => {
                    &&& old(self)@.contains_key(key)
                    &&& *v == old(self)@[key]
                    &&& final(self)@ == old(self)@.insert(key, *final(v))
                    &&& final(self).wf()
                    &&& final(self).spec_null_key() == old(self).spec_null_key()
                    &&& final(self).spec_capacity() == old(self).spec_capacity()
                },
                None => !old(self)@.contains_key(key) && *final(self) == *old(self),
            },
    {
        if key == self.null_key {
            return None;
        }
        let (r, _) = self.get_idx(key);
        match r {
            PossibleIdx::Found(idx) => {
                proof {
                    let before = *self;
                    assert forall|after: Self|
                        before.value_changed(after, idx as int) implies #[trigger] after.wf()
                        && after.contents() == before.contents().insert(
                        key,
                        after.table@[idx as int].value,
                    ) by {
                        before.lemma_value_changed(after, idx as int);
                    }
                }
                Some(&mut self.table[idx].value)
            },
            PossibleIdx::Empty(_) => None,
        }
    }

    /// Stores `value` under `key`: a new key gets a slot of its own, a key of
    /// the table gets the new value in the slot it has.  The table doubles
    /// when half of its slots are in use.  Whether it doubles or not, a
    /// lookup of `key` then gives `value`, and a lookup of any other key
    /// gives what it gave before.
    pub fn add(&mut self, key: u128, value: T)
        requires
            old(self).wf(),
            old(self).spec_has_room(),
            key != old(self).spec_null_key(),
        ensures
            final(self).wf(),
            final(self)@ == old(self)@.insert(key, value),
            final(self)@.contains_key(key) && final(self)@[key] == value,
            forall|k: u128|
                k != key ==> (#[trigger] final(self)@.contains_key(k) <==> old(self)@.contains_key(
                    k,
                )) && (old(self)@.contains_key(k) ==> final(self)@[k] == old(self)@[k]),
            final(self).spec_null_key() == old(self).spec_null_key(),
            final(self).spec_capacity() == grown_capacity(
                old(self).spec_capacity(),
                old(self)@.insert(key, value).dom().len(),
            ),
    {
        proof {
            self.lemma_dom();
        }
        if self.table.len() < 2 {
            self.grow();
        }
        self.place(key, value);
        proof {
            self.lemma_dom();
        }
        if self.n_elements >= self.table.len() / 2 {
            self.grow();
        }
    }

    /// The pairs of the table, one for each key, in the order of their
    /// slots.
    pub fn iter(&self) -> (r: Vec<(u128, T)>)
        requires
            self.wf(),
        ensures
            r@.len() == self@.dom().len(),
            forall|j: int|
                0 <= j < r@.len() ==> self@.contains_key((#[trigger] r@[j]).0) && self@[r@[j].0]
                    == r@[j].1,
            forall|k: u128|
                self@.contains_key(k) ==> exists|j: int|
                    0 <= j < r@.len() && (#[trigger] r@[j]).0 == k,
            forall|a: int, b: int| 0 <= a < b < r@.len() ==> r@[a].0 != r@[b].0,
    {
        let mut out: Vec<(u128, T)> = Vec::new();
        let ghost mut src: Seq<int> = Seq::empty();
        let mut i: usize = 0;
        while i < self.table.len()
            invariant
                self.inv(),
                i <= self.table@.len(),
                out@.len() == src.len(),
                out@.len() == occupied(self.table@.take(i as int), self.null_key),
                forall|j: int|
                    0 <= j < src.len() ==> {
                        &&& 0 <= (#[trigger] src[j]) < i
                        &&& self.table@[src[j]].key != self.null_key
                        &&& self.table@[src[j]].key == out@[j].0
                        &&& self.table@[src[j]].value == out@[j].1
                    },
                forall|a: int, b: int| 0 <= a < b < src.len() ==> src[a] < src[b],
                forall|s: int|
                    0 <= s < i && (#[trigger] self.table@[s]).key != self.null_key ==> exists|
                        j: int,
                    |
                        0 <= j < src.len() && #[trigger] src[j] == s,
            decreases self.table@.len() - i,
        {
            let entry = self.table[i];
            proof {
                assert(self.table@.take(i + 1).drop_last() =~= self.table@.take(i as int));
            }
            if entry.key != self.null_key {
                out.push((entry.key, entry.value));
                proof {
                    let ghost prev = src;
                    src = src.push(i as int);
                    assert forall|s: int|
                        0 <= s < i + 1 && (#[trigger] self.table@[s]).key
                            != self.null_key implies exists|j: int|
                        0 <= j < src.len() && #[trigger] src[j] == s by {
                        if s < i {
                            let j = choose|j: int| 0 <= j < prev.len() && #[trigger] prev[j] == s;
                            assert(src[j] == s);
                        } else {
                            assert(src[prev.len() as int] == s);
                        }
                    }
                }
            }
            i = i + 1;
        }
        proof {
            self.lemma_dom();
            assert(self.table@.take(i as int) =~= self.table@);
            assert forall|j: int| 0 <= j < out@.len() implies self@.contains_key(
                (#[trigger] out@[j]).0,
            ) && self@[out@[j].0] == out@[j].1 by {
                assert(self.table@[src[j]].key != self.null_key);
            }
            assert forall|k: u128| self@.contains_key(k) implies exists|j: int|
                0 <= j < out@.len() && (#[trigger] out@[j]).0 == k by {
                let s = self.home(k);
                assert(self.table@[s].key != self.null_key);
                let j = choose|j: int| 0 <= j < src.len() && #[trigger] src[j] == s;
                assert(out@[j].0 == k);
            }
            assert forall|a: int, b: int| 0 <= a < b < out@.len() implies out@[a].0
                != out@[b].0 by {
                assert(self.table@[src[a]].key != self.null_key);
                assert(self.table@[src[b]].key != self.null_key);
            }
        }
        out
    }

    /// The number of keys in the table.
    pub fn len(&self) -> (n: usize)
        requires
            self.wf(),
        ensures
            n == self@.dom().len(),
    {
        proof {
            self.lemma_dom();
        }
        self.n_elements
    }

    /// The binary logarithm of the number of slots.
    pub fn size_log2(&self) -> (k: u8)
        ensures
            k == self.spec_size_log2(),
    {
        self.table_size_log2
    }

    /// Whether `add` may be called: whether the table can still double.
    pub fn has_room(&self) -> (b: bool)
        ensures
            b == self.spec_has_room(),
    {
        self.table.len() <= usize::MAX / 4
    }
}

/// The map that holds `start` and then, one after the other, the first `n`
/// of `pairs`, as `add` stores them.
pub open spec fn add_all<T>(start: Map<u128, T>, pairs: Seq<(u128, T)>, n: nat) -> Map<u128, T>
    decreases n,
{
    if n == 0 {
        start
    } else {
        add_all(start, pairs, (n - 1) as nat).insert(pairs[n - 1].0, pairs[n - 1].1)
    }
}

/// Round trip: where keys that differ from each other are added one after the
/// other, a lookup of each of them, made at any time after it was added,
/// gives the value that was added with it.  The number of slots plays no
/// part, so a table that grew in between answers the same.
pub proof fn lemma_add_get_round_trip<T>(
    start: Map<u128, T>,
    pairs: Seq<(u128, T)>,
    i: int,
    n: nat,
)
    requires
        forall|a: int, b: int| 0 <= a < b < pairs.len() ==> pairs[a].0 != pairs[b].0,
        0 <= i < n <= pairs.len(),
    ensures
        add_all(start, pairs, n).contains_key(pairs[i].0),
        add_all(start, pairs, n)[pairs[i].0] == pairs[i].1,
    decreases n,
{
    if i < n - 1 {
        lemma_add_get_round_trip(start, pairs, i, (n - 1) as nat);
    }
}

} // verus!
