//! The square-root cache: a fixed array of (key, root) slots, scanned in
//! order on lookup and refilled at random slots on a miss.
use crate::root::{floor_sqrt, isqrt, lemma_isqrt_of_byte};
use vstd::prelude::*;

verus! {

/// Number of slots in every cache.
pub const CACHE_SIZE: usize = 100;

/// One slot: a key and the root stored for it.
#[derive(Clone, Copy, Debug, PartialEq, Eq, Structural)]
pub struct CacheEntry {
    pub number: u8,
    pub sqroot: u8,
}

/// The slot stores the true root of its key.
pub open spec fn entry_holds_root(e: CacheEntry) -> bool {
    e.sqroot as int == isqrt(e.number as int)
}

/// A cache's slots: exactly `CACHE_SIZE` of them, each holding a true root.
pub open spec fn slots_valid(s: Seq<CacheEntry>) -> bool {
    &&& s.len() == CACHE_SIZE
    &&& forall|i: int| 0 <= i < s.len() ==> #[trigger] entry_holds_root(s[i])
}

/// Some slot holds `key`.
pub open spec fn has_key(s: Seq<CacheEntry>, key: u8) -> bool {
    exists|i: int| 0 <= i < s.len() && #[trigger] s[i].number == key
}

/// `r` is what an in-order scan of `s` for `key` finds: the value of the
/// first slot holding `key`, or nothing when no slot holds it.
pub open spec fn lookup_result(s: Seq<CacheEntry>, key: u8, r: Option<u8>) -> bool {
    match r {
        Some(v) => exists|j: int|
            #![trigger s[j]]
            0 <= j < s.len() && s[j].number == key && s[j].sqroot == v && forall|i: int|
                0 <= i < j ==> #[trigger] s[i].number != key,
        None => !has_key(s, key),
    }
}

/// The slot written for candidate key `c`.
pub open spec fn candidate_entry(c: int) -> CacheEntry {
    CacheEntry { number: c as u8, sqroot: isqrt(c) as u8 }
}

/// Slots after candidate `c` was handled with the drawn index `slot`: a
/// candidate within the key range overwrites that slot, any other leaves
/// the slots as they were.
pub open spec fn store(s: Seq<CacheEntry>, c: int, slot: int) -> Seq<CacheEntry> {
    if 0 <= c <= 255 {
        s.update(slot, candidate_entry(c))
    } else {
        s
    }
}

/// Slots after a miss on `key` with the drawn indices `i0`, `i1`, `i2`,
/// used in turn for the candidates `key - 1`, `key` and `key + 1`.
pub open spec fn after_miss(s: Seq<CacheEntry>, key: u8, i0: int, i1: int, i2: int) -> Seq<
    CacheEntry,
> {
    store(store(store(s, key - 1, i0), key as int, i1), key + 1, i2)
}

/// The indices a miss may draw.
pub open spec fn slot_index(i: int) -> bool {
    0 <= i < CACHE_SIZE
}

/// One query for `key` took the slots from `s0` to `s1` and returned `r`:
/// on a hit nothing changes and the first matching slot's value comes
/// back; on a miss the three candidates are stored at some drawn indices
/// and the freshly computed root of `key` comes back.
pub open spec fn calculate_step(s0: Seq<CacheEntry>, key: u8, s1: Seq<CacheEntry>, r: u8) -> bool {
    if has_key(s0, key) {
        s1 == s0 && lookup_result(s0, key, Some(r))
    } else {
        &&& r as int == isqrt(key as int)
        &&& exists|i0: int, i1: int, i2: int|
            slot_index(i0) && slot_index(i1) && slot_index(i2) && s1 == #[trigger] after_miss(
                s0,
                key,
                i0,
                i1,
                i2,
            )
    }
}

/// Storing a candidate keeps the slot count and the truth of every slot.
pub proof fn lemma_store_valid(s: Seq<CacheEntry>, c: int, slot: int)
    requires
        slots_valid(s),
        slot_index(slot),
    ensures
        slots_valid(store(s, c, slot)),
{
    if 0 <= c <= 255 {
        lemma_isqrt_of_byte(c);
        let t = store(s, c, slot);
        assert forall|i: int| 0 <= i < t.len() implies #[trigger] entry_holds_root(t[i]) by {
            if i != slot {
                assert(entry_holds_root(s[i]));
            }
        }
    }
}

/// A miss keeps the slot count and the truth of every slot.
pub proof fn lemma_after_miss_valid(s: Seq<CacheEntry>, key: u8, i0: int, i1: int, i2: int)
    requires
        slots_valid(s),
        slot_index(i0),
        slot_index(i1),
        slot_index(i2),
    ensures
        slots_valid(after_miss(s, key, i0, i1, i2)),
{
    lemma_store_valid(s, key - 1, i0);
    let s1 = store(s, key - 1, i0);
    lemma_store_valid(s1, key as int, i1);
    lemma_store_valid(store(s1, key as int, i1), key + 1, i2);
}

/// Every query of a valid cache returns the true root of its key and
/// leaves the cache valid, with exactly `CACHE_SIZE` slots.
pub proof fn lemma_step_correct(s0: Seq<CacheEntry>, key: u8, s1: Seq<CacheEntry>, r: u8)
    requires
        slots_valid(s0),
        calculate_step(s0, key, s1, r),
    ensures
        r as int == isqrt(key as int),
        slots_valid(s1),
        s1.len() == CACHE_SIZE,
{
    if has_key(s0, key) {
        let j = choose|j: int|
            #![trigger s0[j]]
            0 <= j < s0.len() && s0[j].number == key && s0[j].sqroot == r && forall|i: int|
                0 <= i < j ==> #[trigger] s0[i].number != key;
        assert(entry_holds_root(s0[j]));
    } else {
        let (i0, i1, i2) = choose|i0: int, i1: int, i2: int|
            slot_index(i0) && slot_index(i1) && slot_index(i2) && s1 == #[trigger] after_miss(
                s0,
                key,
                i0,
                i1,
                i2,
            );
        lemma_after_miss_valid(s0, key, i0, i1, i2);
    }
}

/// A second query for the same key, made while the slot that the first
/// one left for that key is still there, is a hit: it returns the same
/// value and changes nothing.
pub proof fn lemma_idempotent_hit(
    s0: Seq<CacheEntry>,
    key: u8,
    s1: Seq<CacheEntry>,
    r1: u8,
    s2: Seq<CacheEntry>,
    r2: u8,
)
    requires
        slots_valid(s0),
        calculate_step(s0, key, s1, r1),
        has_key(s1, key),
        calculate_step(s1, key, s2, r2),
    ensures
        s2 == s1,
        r2 == r1,
{
    lemma_step_correct(s0, key, s1, r1);
    lemma_step_correct(s1, key, s2, r2);
}

/// After a miss on a key strictly inside the key range, the slot drawn
/// for `key + 1` holds its true root, and the slots drawn for `key` and
/// `key - 1` hold theirs unless a later draw of the same miss fell on
/// them.
pub proof fn lemma_miss_inserts_neighbors(
    s: Seq<CacheEntry>,
    key: u8,
    i0: int,
    i1: int,
    i2: int,
)
    requires
        s.len() == CACHE_SIZE,
        slot_index(i0),
        slot_index(i1),
        slot_index(i2),
        0 < key < 255,
    ensures
        ({
            let t = after_miss(s, key, i0, i1, i2);
            &&& t.len() == CACHE_SIZE
            &&& t[i2].number == key + 1 && entry_holds_root(t[i2])
            &&& i1 != i2 ==> t[i1].number == key && entry_holds_root(t[i1])
            &&& i0 != i1 && i0 != i2 ==> t[i0].number == key - 1 && entry_holds_root(t[i0])
        }),
{
    lemma_isqrt_of_byte(key - 1);
    lemma_isqrt_of_byte(key as int);
    lemma_isqrt_of_byte(key + 1);
}

/// Over any run of queries that starts from a valid cache, every query
/// returns the true root of its key and every cache along the way stays
/// valid.
pub proof fn lemma_run_correct(states: Seq<Seq<CacheEntry>>, keys: Seq<u8>, results: Seq<u8>)
    requires
        states.len() == keys.len() + 1,
        results.len() == keys.len(),
        slots_valid(states[0]),
        forall|k: int|
            0 <= k < keys.len() ==> #[trigger] calculate_step(
                states[k],
                keys[k],
                states[k + 1],
                results[k],
            ),
    ensures
        forall|k: int| 0 <= k < states.len() ==> slots_valid(#[trigger] states[k]),
        forall|k: int| 0 <= k < keys.len() ==> #[trigger] results[k] as int == isqrt(keys[k] as int),
    decreases keys.len(),
{
    if keys.len() > 0 {
        let n = keys.len() - 1;
        lemma_run_correct(states.take(n + 1), keys.take(n), results.take(n));
        assert(slots_valid(states.take(n + 1)[n]));
        assert(calculate_step(states[n], keys[n], states[n + 1], results[n]));
        lemma_step_correct(states[n], keys[n], states[n + 1], results[n]);
        assert forall|k: int| 0 <= k < states.len() implies slots_valid(#[trigger] states[k]) by {
            if k <= n {
                assert(slots_valid(states.take(n + 1)[k]));
            }
        }
        assert forall|k: int| 0 <= k < keys.len() implies #[trigger] results[k] as int == isqrt(
            keys[k] as int,
        ) by {
            if k < n {
                assert(results.take(n)[k] as int == isqrt(keys.take(n)[k] as int));
            }
        }
    }
}

/// Relies on rand's `rng` and `Rng::random_range`: the thread-local
/// generator draws a value in `0..bound`; the call panics on an empty
/// range, which `requires` rules out.
#[verifier::external_body]
fn random_index(bound: usize) -> (r: usize)
    requires
        bound > 0,
    ensures
        r < bound,
{
    rand::Rng::random_range(&mut rand::rng(), 0..bound)
}

/// A fixed-size cache of square roots keyed by a byte.
pub struct SqrtCache {
    entries: Vec<CacheEntry>,
}

impl View for SqrtCache {
    type V = Seq<CacheEntry>;

    closed spec fn view(&self) -> Seq<CacheEntry> {
        self.entries@
    }
}

impl SqrtCache {
    /// The cache holds `CACHE_SIZE` slots, each with a true root.
    pub open spec fn wf(&self) -> bool {
        slots_valid(self@)
    }

    /// A cache whose slots all hold key 0 with root 0.
    pub fn new() -> (r: SqrtCache)
        ensures
            r.wf(),
            forall|i: int| 0 <= i < r@.len() ==> #[trigger] r@[i] == (CacheEntry { number: 0, sqroot: 0 }),
    {
        let mut entries: Vec<CacheEntry> = Vec::new();
        while entries.len() < CACHE_SIZE
            invariant
                entries.len() <= CACHE_SIZE,
                forall|i: int| 0 <= i < entries@.len() ==> #[trigger] entries@[i] == (CacheEntry { number: 0, sqroot: 0 }),
            decreases CACHE_SIZE - entries.len(),
        {
            entries.push(CacheEntry { number: 0, sqroot: 0 });
        }
        proof {
            assert(isqrt(0) == 0);
        }
        SqrtCache { entries }
    }

    /// Number of slots; always `CACHE_SIZE`.
    pub fn len(&self) -> (r: usize)
        ensures
            r == self@.len(),
    {
        self.entries.len()
    }

    /// The slot at index `i`.
    pub fn slot(&self, i: usize) -> (r: CacheEntry)
        requires
            i < self@.len(),
        ensures
            r == self@[i as int],
    {
        self.entries[i]
    }

    /// Scans the slots in order and returns the value of the first one
    /// that holds `key`, or `None` when none does.
    pub fn lookup(&self, key: u8) -> (r: Option<u8>)
        ensures
            lookup_result(self@, key, r),
            self.wf() ==> (r matches Some(v) ==> v as int == isqrt(key as int)),
    {
        let mut i: usize = 0;
        while i < self.entries.len()
            invariant
                i <= self@.len(),
                forall|j: int| 0 <= j < i ==> #[trigger] self@[j].number != key,
            decreases self@.len() - i,
        {
            let e = self.entries[i];
            if e.number == key {
                proof {
                    if self.wf() {
                        assert(entry_holds_root(self@[i as int]));
                    }
                }
                return Some(e.sqroot);
            }
            i = i + 1;
        }
        None
    }

    /// Handles one candidate key of a miss with the drawn index `slot`.
    fn store_candidate(&mut self, candidate: i32, slot: usize)
        requires
            old(self).wf(),
            slot < CACHE_SIZE,
        ensures
            final(self)@ == store(old(self)@, candidate as int, slot as int),
            final(self).wf(),
    {
        proof {
            lemma_store_valid(self@, candidate as int, slot as int);
        }
        if 0 <= candidate && candidate <= 255 {
            let n = candidate as u8;
            let root = floor_sqrt(n);
            proof {
                lemma_isqrt_of_byte(n as int);
            }
            self.entries.set(slot, CacheEntry { number: n, sqroot: root });
        }
    }

    /// The miss handling for `key`, with the indices drawn for the
    /// candidates `key - 1`, `key` and `key + 1` given in turn: each
    /// candidate in the key range overwrites its slot with its root, and
    /// the root of `key` is returned.
    pub fn fill_miss(&mut self, key: u8, i0: usize, i1: usize, i2: usize) -> (r: u8)
        requires
            old(self).wf(),
            i0 < CACHE_SIZE,
            i1 < CACHE_SIZE,
            i2 < CACHE_SIZE,
        ensures
            final(self)@ == after_miss(old(self)@, key, i0 as int, i1 as int, i2 as int),
            final(self).wf(),
            r as int == isqrt(key as int),
    {
        let k = key as i32;
        self.store_candidate(k - 1, i0);
        self.store_candidate(k, i1);
        self.store_candidate(k + 1, i2);
        floor_sqrt(key)
    }

    /// Returns the root of `key`: from the first slot holding it if there
    /// is one, without change; otherwise by a miss, at indices drawn
    /// uniformly at random.
    pub fn cache_calculate(&mut self, key: u8) -> (r: u8)
        requires
            old(self).wf(),
        ensures
            calculate_step(old(self)@, key, final(self)@, r),
            r as int == isqrt(key as int),
            final(self).wf(),
            final(self)@.len() == CACHE_SIZE,
    {
        match self.lookup(key) {
            Some(v) => v,
            None => {
                let i0 = random_index(CACHE_SIZE);
                let i1 = random_index(CACHE_SIZE);
                let i2 = random_index(CACHE_SIZE);
                let ghost s0 = self@;
                let r = self.fill_miss(key, i0, i1, i2);
                assert(slot_index(i0 as int) && slot_index(i1 as int) && slot_index(i2 as int));
                assert(self@ == after_miss(s0, key, i0 as int, i1 as int, i2 as int));
                r
            },
        }
    }
}

} // verus!
