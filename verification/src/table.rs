use vstd::prelude::*;
use vstd::map::*;
use vstd::slice::slice_to_vec;

use crate::AggError;
use crate::stats::{StationStats, StatsM, stats_init, stats_upd, stats_wf};

verus! {

/// Number of slots in the table: a fixed, closed capacity.
pub const TABLE_SIZE: usize = 65536;

/// Longest key the table can store.
pub const MAX_KEY_LEN: usize = 100;

/// Weak rolling hash of a byte prefix, kept within the table's index range.
pub open spec fn hash_acc(s: Seq<u8>) -> int
    decreases s.len(),
{
    if s.len() == 0 {
        0
    } else {
        (hash_acc(s.drop_last()) * 256 + s.last()) % 65536
    }
}

/// The home slot of a key: a prefix window of at most eight bytes mixed with
/// the key length.
pub open spec fn hash_spec(k: Seq<u8>) -> int {
    let w = if k.len() <= 8 {
        k
    } else {
        k.take(8)
    };
    (hash_acc(w) + k.len()) % 65536
}

/// The slot reached after `d` linear probes from home slot `h`.
pub open spec fn slot_at(h: int, d: int) -> int
    recommends
        0 <= h < 65536,
        0 <= d < 65536,
{
    if h + d < 65536 {
        h + d
    } else {
        h + d - 65536
    }
}

/// How many linear probes lead from home slot `h` to slot `i`.
pub open spec fn probe_dist(h: int, i: int) -> int
    recommends
        0 <= h < 65536,
        0 <= i < 65536,
{
    if i >= h {
        i - h
    } else {
        i - h + 65536
    }
}

/// The aggregate for `k` in model `m`, or the initial record if `k` is new.
pub open spec fn model_get(m: Map<Seq<u8>, StatsM>, k: Seq<u8>) -> StatsM {
    if m.contains_key(k) {
        m[k]
    } else {
        stats_init()
    }
}

/// Folding one record into the model: the key's aggregate absorbs the value.
pub open spec fn upd_map(m: Map<Seq<u8>, StatsM>, k: Seq<u8>, v: int) -> Map<Seq<u8>, StatsM> {
    m.insert(k, stats_upd(model_get(m, k), v))
}

/// How many of the first `n` slots hold a key.
pub open spec fn occ_count(ks: Seq<Vec<u8>>, n: int) -> int
    decreases n,
{
    if n <= 0 {
        0
    } else {
        occ_count(ks, n - 1) + if ks[n - 1]@.len() > 0 {
            1int
        } else {
            0int
        }
    }
}

/// Fixed-capacity open-addressing hash table from byte keys to running
/// statistics.  A slot is unoccupied exactly when its key is empty; collisions
/// are resolved by linear probing, and the table never grows.
pub struct StationTable {
    pub keys: Vec<Vec<u8>>,
    pub stats: Vec<StationStats>,
    pub used: usize,
}

impl StationTable {
    /// Whether slot `i` holds a key.
    pub open spec fn occ(self, i: int) -> bool {
        self.keys@[i]@.len() > 0
    }

    /// The key bytes stored in slot `i`.
    pub open spec fn key_at(self, i: int) -> Seq<u8> {
        self.keys@[i]@
    }

    /// The statistics stored in slot `i`.
    pub open spec fn sm_at(self, i: int) -> StatsM {
        self.stats@[i]@
    }

    /// Whether some slot holds key `k`.
    pub open spec fn has_key(self, k: Seq<u8>) -> bool {
        exists|i: int| 0 <= i < 65536 && self.occ(i) && #[trigger] self.key_at(i) == k
    }

    /// The slot holding key `k` (unique under `wf`).
    pub open spec fn slot_of(self, k: Seq<u8>) -> int {
        choose|i: int| 0 <= i < 65536 && self.occ(i) && #[trigger] self.key_at(i) == k
    }

    /// Every slot on the probe path of slot `i`'s key, up to `i` itself,
    /// is occupied; this is what lets a probe stop at the first empty slot.
    pub open spec fn chain_ok(self, i: int) -> bool {
        forall|d: int|
            0 <= d < probe_dist(hash_spec(self.key_at(i)), i) ==> self.occ(
                #[trigger] slot_at(hash_spec(self.key_at(i)), d),
            )
    }

    /// The table invariant: full slot vectors, bounded keys, unique keys,
    /// unbroken probe chains, well-formed statistics, and an occupancy count
    /// that agrees with the abstract map.
    pub open spec fn wf(self) -> bool {
        &&& self.keys@.len() == 65536
        &&& self.stats@.len() == 65536
        &&& forall|i: int| 0 <= i < 65536 ==> #[trigger] self.key_at(i).len() <= 100
        &&& forall|i: int|
            0 <= i < 65536 && self.occ(i) ==> stats_wf(#[trigger] self.sm_at(i))
        &&& forall|i: int|
            0 <= i < 65536 && !self.occ(i) ==> #[trigger] self.sm_at(i) == stats_init()
        &&& forall|i: int, j: int|
            0 <= i < 65536 && 0 <= j < 65536 && i != j && self.occ(i) && self.occ(j)
                ==> #[trigger] self.key_at(i) != #[trigger] self.key_at(j)
        &&& forall|i: int| 0 <= i < 65536 && self.occ(i) ==> #[trigger] self.chain_ok(i)
        &&& self.used as int == occ_count(self.keys@, 65536)
        &&& self.model().dom().finite()
        &&& self.model().dom().len() == self.used as int
    }

    /// The abstract content: a map from each stored key to its statistics.
    pub open spec fn model(self) -> Map<Seq<u8>, StatsM> {
        Map::new(|k: Seq<u8>| self.has_key(k), |k: Seq<u8>| self.sm_at(self.slot_of(k)))
    }

    /// A freshly built table: every slot empty, the model map empty.
    pub fn new() -> (r: Self)
        ensures
            r.wf(),
            r.model() == Map::<Seq<u8>, StatsM>::empty(),
    {
        let mut keys: Vec<Vec<u8>> = Vec::new();
        let mut stats: Vec<StationStats> = Vec::new();
        let mut i: usize = 0;
        while i < TABLE_SIZE
            invariant
                i <= 65536,
                keys@.len() == i,
                stats@.len() == i,
                forall|j: int| 0 <= j < i ==> (#[trigger] keys@[j])@.len() == 0,
                forall|j: int| 0 <= j < i ==> (#[trigger] stats@[j])@ == stats_init(),
            decreases 65536 - i,
        {
            keys.push(Vec::new());
            stats.push(StationStats::new());
            i += 1;
        }
        let r = StationTable { keys, stats, used: 0 };
        proof {
            lemma_occ_count_empty(r.keys@, 65536);
            assert(r.model().dom() =~= Set::<Seq<u8>>::empty());
            assert(r.model() =~= Map::<Seq<u8>, StatsM>::empty());
        }
        r
    }

    /// The home slot for a key: a weak hash of a fixed-size byte prefix
    /// window mixed with the key length, reduced to the table's index range.
    pub fn hash(name: &[u8]) -> (h: usize)
        ensures
            h == hash_spec(name@),
            h < 65536,
    {
        let n = if name.len() <= 8 {
            name.len()
        } else {
            8
        };
        let ghost w = if name@.len() <= 8 {
            name@
        } else {
            name@.take(8)
        };
        let mut acc: u64 = 0;
        let mut i: usize = 0;
        while i < n
            invariant
                i <= n,
                n == if name@.len() <= 8 { name@.len() as int } else { 8int },
                w == if name@.len() <= 8 { name@ } else { name@.take(8) },
                w.len() == n,
                forall|j: int| 0 <= j < w.len() ==> w[j] == name@[j],
                acc == hash_acc(w.take(i as int)),
                acc < 65536,
            decreases n - i,
        {
            proof {
                let pre = w.take(i + 1);
                assert(pre.drop_last() =~= w.take(i as int));
                assert(pre.last() == w[i as int]);
            }
            acc = (acc * 256 + name[i] as u64) % 65536;
            i += 1;
        }
        proof {
            assert(w.take(n as int) =~= w);
        }
        let h = ((acc + (name.len() % 65536) as u64) % 65536) as usize;
        proof {
            assert(h == (hash_acc(w) + name@.len()) % 65536) by {
                vstd::arithmetic::div_mod::lemma_add_mod_noop(
                    hash_acc(w),
                    name@.len() as int,
                    65536,
                );
                vstd::arithmetic::div_mod::lemma_mod_twice(hash_acc(w), 65536);
            }
        }
        h
    }

    /// Finds the slot for `name`, creating it if the key is new, and folds
    /// `temp` into its statistics.  Rejects over-long keys, and reports a
    /// full table instead of probing forever.
    pub fn lookup_or_insert(&mut self, name: &[u8], temp: i32) -> (r: Result<(), AggError>)
        requires
            old(self).wf(),
            name@.len() >= 1,
            old(self).model().contains_key(name@) ==> old(self).model()[name@].count
                < 0x4000_0000,
        ensures
            final(self).wf(),
            match r {
                Ok(()) => name@.len() <= 100 && (old(self).model().contains_key(name@) || old(
                    self,
                ).model().dom().len() < 65536) && final(self).model() == upd_map(
                    old(self).model(),
                    name@,
                    temp as int,
                ),
                Err(AggError::KeyTooLong) => name@.len() > 100 && *final(self) == *old(self),
                Err(AggError::TableFull) => name@.len() <= 100 && !old(self).model().contains_key(
                    name@,
                ) && old(self).model().dom().len() == 65536 && *final(self) == *old(self),
                Err(AggError::MalformedRecord) => false,
                Err(AggError::KeyNotText) => false,
            },
    {
        if name.len() > MAX_KEY_LEN {
            return Err(AggError::KeyTooLong);
        }
        let h = Self::hash(name);
        let mut k: usize = 0;
        while k < TABLE_SIZE
            invariant
                *self == *old(self),
                self.wf(),
                name@.len() >= 1,
                name@.len() <= 100,
                old(self).model().contains_key(name@) ==> old(self).model()[name@].count
                    < 0x4000_0000,
                h == hash_spec(name@),
                h < 65536,
                k <= 65536,
                forall|d: int|
                    0 <= d < k ==> self.occ(#[trigger] slot_at(h as int, d)) && self.key_at(
                        slot_at(h as int, d),
                    ) != name@,
            decreases 65536 - k,
        {
            let idx = if h + k < TABLE_SIZE {
                h + k
            } else {
                h + k - TABLE_SIZE
            };
            proof {
                assert(idx == slot_at(h as int, k as int));
            }
            if self.keys[idx].len() == 0 {
                proof {
                    lemma_probe_misses(*self, name@, h as int, k as int);
                }
                let ghost before = *self;
                let key_copy = slice_to_vec(name);
                self.keys[idx] = key_copy;
                let mut st = self.stats[idx];
                proof {
                    assert(!before.occ(idx as int));
                    assert(before.sm_at(idx as int) == stats_init());
                    assert(st@ == stats_init());
                    lemma_occ_count_le(before.keys@, 65536);
                }
                st.update(temp);
                self.stats[idx] = st;
                self.used = self.used + 1;
                proof {
                    lemma_occ_count_insert(before.keys@, self.keys@, idx as int, 65536);
                    lemma_occ_count_le(self.keys@, 65536);
                    lemma_insert_ok(before, *self, idx as int, name@, temp as int);
                }
                return Ok(());
            }
            let cand = &self.keys[idx];
            if cand.len() == name.len() && bytes_eq(cand.as_slice(), name) {
                proof {
                    assert(self.key_at(idx as int) == name@);
                    assert(self.occ(idx as int));
                    assert(self.has_key(name@));
                    assert(self.slot_of(name@) == idx) by {
                        let j = self.slot_of(name@);
                        assert(0 <= j < 65536 && self.occ(j) && self.key_at(j) == name@);
                    }
                    assert(self.model()[name@] == self.sm_at(idx as int));
                }
                let ghost before = *self;
                let mut st = self.stats[idx];
                st.update(temp);
                self.stats[idx] = st;
                proof {
                    lemma_update_ok(before, *self, idx as int, name@, temp as int);
                }
                return Ok(());
            }
            k += 1;
        }
        proof {
            assert forall|i: int| 0 <= i < 65536 implies self.occ(i) by {
                let d = probe_dist(h as int, i);
                assert(0 <= d < 65536);
                assert(slot_at(h as int, d) == i);
                assert(self.occ(slot_at(h as int, d)));
            }
            assert forall|i: int| 0 <= i < 65536 implies (#[trigger] self.keys@[i])@.len() > 0 by {
                assert(self.occ(i));
            }
            lemma_occ_count_all(self.keys@, 65536);
            lemma_probe_misses(*self, name@, h as int, 65536);
            assert(!self.model().contains_key(name@));
        }
        Err(AggError::TableFull)
    }
}

/// Byte-for-byte equality of two slices.
pub fn bytes_eq(a: &[u8], b: &[u8]) -> (r: bool)
    ensures
        r == (a@ == b@),
{
    if a.len() != b.len() {
        return false;
    }
    let mut i: usize = 0;
    while i < a.len()
        invariant
            a@.len() == b@.len(),
            i <= a@.len(),
            forall|j: int| 0 <= j < i ==> a@[j] == b@[j],
        decreases a@.len() - i,
    {
        if a[i] != b[i] {
            return false;
        }
        i += 1;
    }
    proof {
        assert(a@ =~= b@);
    }
    true
}

proof fn lemma_occ_count_empty(ks: Seq<Vec<u8>>, n: int)
    requires
        forall|i: int| 0 <= i < n ==> (#[trigger] ks[i])@.len() == 0,
    ensures
        occ_count(ks, n) == 0,
    decreases n,
{
    if n > 0 {
        lemma_occ_count_empty(ks, n - 1);
        assert(ks[n - 1]@.len() == 0);
    }
}

proof fn lemma_occ_count_le(ks: Seq<Vec<u8>>, n: int)
    ensures
        0 <= occ_count(ks, n) <= if n >= 0 {
            n
        } else {
            0int
        },
    decreases n,
{
    if n > 0 {
        lemma_occ_count_le(ks, n - 1);
    }
}

proof fn lemma_occ_count_all(ks: Seq<Vec<u8>>, n: int)
    requires
        n >= 0,
        forall|i: int| 0 <= i < n ==> (#[trigger] ks[i])@.len() > 0,
    ensures
        occ_count(ks, n) == n,
    decreases n,
{
    if n > 0 {
        lemma_occ_count_all(ks, n - 1);
        assert(ks[n - 1]@.len() > 0);
    }
}

proof fn lemma_occ_count_insert(ks: Seq<Vec<u8>>, ks2: Seq<Vec<u8>>, at: int, n: int)
    requires
        0 <= at < ks.len(),
        ks2.len() == ks.len(),
        ks[at]@.len() == 0,
        ks2[at]@.len() > 0,
        forall|i: int| 0 <= i < ks.len() && i != at ==> ks2[i] == ks[i],
        n <= ks.len(),
    ensures
        occ_count(ks2, n) == occ_count(ks, n) + if at < n {
            1int
        } else {
            0int
        },
    decreases n,
{
    if n > 0 {
        lemma_occ_count_insert(ks, ks2, at, n - 1);
    }
}

/// If the first `k` probe slots for `name` are occupied by other keys, and
/// either the next probe slot is empty or every slot has been probed, then
/// `name` is nowhere in the table.
proof fn lemma_probe_misses(t: StationTable, name: Seq<u8>, h: int, k: int)
    requires
        t.wf(),
        h == hash_spec(name),
        0 <= h < 65536,
        0 <= k <= 65536,
        forall|d: int|
            0 <= d < k ==> t.occ(#[trigger] slot_at(h, d)) && t.key_at(slot_at(h, d)) != name,
        k < 65536 ==> !t.occ(slot_at(h, k)),
    ensures
        !t.has_key(name),
        forall|i: int| 0 <= i < 65536 && t.occ(i) ==> #[trigger] t.key_at(i) != name,
{
    assert forall|i: int| 0 <= i < 65536 && t.occ(i) implies #[trigger] t.key_at(i) != name by {
        if t.key_at(i) == name {
            let pd = probe_dist(h, i);
            assert(0 <= pd < 65536);
            assert(slot_at(h, pd) == i);
            if pd < k {
                assert(t.key_at(slot_at(h, pd)) != name);
            } else {
                assert(k < 65536);
                assert(t.chain_ok(i));
                if pd == k {
                    assert(!t.occ(i));
                } else {
                    assert(0 <= k < probe_dist(hash_spec(t.key_at(i)), i));
                    assert(t.occ(slot_at(h, k)));
                }
            }
        }
    }
}

/// Inserting a new key into an empty probe-terminal slot preserves the
/// invariant and adds exactly one entry to the model.
proof fn lemma_insert_ok(t0: StationTable, t1: StationTable, at: int, name: Seq<u8>, v: int)
    requires
        t0.wf(),
        0 <= at < 65536,
        1 <= name.len() <= 100,
        -0x8000_0000 <= v <= 0x7fff_ffff,
        !t0.occ(at),
        forall|i: int| 0 <= i < 65536 && t0.occ(i) ==> #[trigger] t0.key_at(i) != name,
        probe_dist(hash_spec(name), at) < 65536,
        forall|d: int|
            0 <= d < probe_dist(hash_spec(name), at) ==> t0.occ(
                #[trigger] slot_at(hash_spec(name), d),
            ),
        t1.keys@ == t0.keys@.update(at, t1.keys@[at]),
        t1.key_at(at) == name,
        t1.stats@ == t0.stats@.update(at, t1.stats@[at]),
        t1.sm_at(at) == stats_upd(stats_init(), v),
        stats_wf(t1.sm_at(at)),
        t1.used == t0.used + 1,
        t1.used as int == occ_count(t1.keys@, 65536),
    ensures
        t1.wf(),
        t1.model() == upd_map(t0.model(), name, v),
{
    assert(!t0.has_key(name));
    assert(forall|i: int| 0 <= i < 65536 && i != at ==> t1.key_at(i) == t0.key_at(i));
    assert(forall|i: int| 0 <= i < 65536 && i != at ==> t1.sm_at(i) == t0.sm_at(i));
    assert(forall|i: int| 0 <= i < 65536 && i != at ==> (t1.occ(i) == t0.occ(i)));
    assert(t1.occ(at));

    // probe chains survive: occupancy only grew
    assert forall|i: int| 0 <= i < 65536 && t1.occ(i) implies #[trigger] t1.chain_ok(i) by {
        if i == at {
            assert forall|d: int|
                0 <= d < probe_dist(hash_spec(t1.key_at(i)), i) implies t1.occ(
                #[trigger] slot_at(hash_spec(t1.key_at(i)), d),
            ) by {
                assert(t0.occ(slot_at(hash_spec(name), d)));
            }
        } else {
            assert(t0.chain_ok(i));
            assert forall|d: int|
                0 <= d < probe_dist(hash_spec(t1.key_at(i)), i) implies t1.occ(
                #[trigger] slot_at(hash_spec(t1.key_at(i)), d),
            ) by {
                assert(t0.occ(slot_at(hash_spec(t0.key_at(i)), d)));
            }
        }
    }

    // the new key is in the model; the chosen slot for any key is unique
    assert(t1.has_key(name));
    assert forall|q: Seq<u8>| #[trigger] t1.has_key(q) implies (0 <= t1.slot_of(q) < 65536
        && t1.occ(t1.slot_of(q)) && t1.key_at(t1.slot_of(q)) == q) by {
        let j = t1.slot_of(q);
        assert(0 <= j < 65536 && t1.occ(j) && t1.key_at(j) == q);
    }
    assert forall|q: Seq<u8>| #[trigger] t0.has_key(q) implies (0 <= t0.slot_of(q) < 65536
        && t0.occ(t0.slot_of(q)) && t0.key_at(t0.slot_of(q)) == q) by {
        let j = t0.slot_of(q);
        assert(0 <= j < 65536 && t0.occ(j) && t0.key_at(j) == q);
    }

    assert(t1.model().dom() =~= t0.model().dom().insert(name));
    assert(t0.model().dom().len() == t0.used as int);
    assert(t1.model().dom().len() == t0.used as int + 1) by {
        vstd::set::axiom_set_insert_finite(t0.model().dom(), name);
        vstd::set::axiom_set_insert_len(t0.model().dom(), name);
    }

    assert(t1.model() =~= upd_map(t0.model(), name, v)) by {
        assert forall|q: Seq<u8>| t1.model().contains_key(q) implies t1.model()[q] == upd_map(
            t0.model(),
            name,
            v,
        )[q] by {
            if q == name {
                assert(t1.slot_of(q) == at);
                assert(model_get(t0.model(), name) == stats_init());
            } else {
                let j = t1.slot_of(q);
                assert(j != at);
                assert(t0.occ(j) && t0.key_at(j) == q);
                assert(t0.slot_of(q) == j);
                assert(t1.model()[q] == t1.sm_at(j));
            }
        }
    }
}

/// Folding a value into an existing key's slot preserves the invariant and
/// replaces exactly that key's entry in the model.
proof fn lemma_update_ok(t0: StationTable, t1: StationTable, at: int, name: Seq<u8>, v: int)
    requires
        t0.wf(),
        0 <= at < 65536,
        t0.occ(at),
        t0.key_at(at) == name,
        t1.keys@ == t0.keys@,
        t1.stats@ == t0.stats@.update(at, t1.stats@[at]),
        t1.sm_at(at) == stats_upd(t0.sm_at(at), v),
        stats_wf(t1.sm_at(at)),
        t1.used == t0.used,
    ensures
        t1.wf(),
        t1.model() == upd_map(t0.model(), name, v),
{
    assert(forall|i: int| 0 <= i < 65536 ==> t1.key_at(i) == t0.key_at(i));
    assert(forall|i: int| 0 <= i < 65536 ==> (t1.occ(i) == t0.occ(i)));
    assert(forall|i: int| 0 <= i < 65536 && i != at ==> t1.sm_at(i) == t0.sm_at(i));

    assert forall|i: int| 0 <= i < 65536 && t1.occ(i) implies #[trigger] t1.chain_ok(i) by {
        assert(t0.chain_ok(i));
        assert forall|d: int|
            0 <= d < probe_dist(hash_spec(t1.key_at(i)), i) implies t1.occ(
            #[trigger] slot_at(hash_spec(t1.key_at(i)), d),
        ) by {
            assert(t0.occ(slot_at(hash_spec(t0.key_at(i)), d)));
        }
    }

    assert forall|q: Seq<u8>| #[trigger] t1.has_key(q) implies (0 <= t1.slot_of(q) < 65536
        && t1.occ(t1.slot_of(q)) && t1.key_at(t1.slot_of(q)) == q) by {
        let j = t1.slot_of(q);
        assert(0 <= j < 65536 && t1.occ(j) && t1.key_at(j) == q);
    }
    assert forall|q: Seq<u8>| #[trigger] t0.has_key(q) implies (0 <= t0.slot_of(q) < 65536
        && t0.occ(t0.slot_of(q)) && t0.key_at(t0.slot_of(q)) == q) by {
        let j = t0.slot_of(q);
        assert(0 <= j < 65536 && t0.occ(j) && t0.key_at(j) == q);
    }

    assert(t1.model().dom() =~= t0.model().dom());
    assert(occ_count(t1.keys@, 65536) == occ_count(t0.keys@, 65536));

    assert(t0.has_key(name));
    assert(t0.slot_of(name) == at);
    assert(t1.has_key(name));
    assert(t1.slot_of(name) == at);

    assert(t1.model() =~= upd_map(t0.model(), name, v)) by {
        assert forall|q: Seq<u8>| t1.model().contains_key(q) implies t1.model()[q] == upd_map(
            t0.model(),
            name,
            v,
        )[q] by {
            if q == name {
                assert(t1.model()[q] == t1.sm_at(at));
                assert(model_get(t0.model(), name) == t0.sm_at(at));
            } else {
                let j = t1.slot_of(q);
                assert(t0.slot_of(q) == j);
                assert(j != at);
            }
        }
    }
}

} // verus!
