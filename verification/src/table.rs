//! The Robin Hood table engine: one contiguous bucket array, linear probing
//! with bucket stealing on insertion, backward-shift deletion, and doubling
//! resizes.  The abstract state of a table is a finite map from keys to
//! values; every operation's contract is stated against that map.
//!
//! The bucket array is the table's arena: fresh zero-initialised storage is
//! obtained when the table is built or resized and the old array is given
//! up with the exact capacity it was obtained with, the discipline that the
//! raw allocator's contract demands of its caller.

use vstd::prelude::*;
use vstd::arithmetic::power2::{is_pow2, is_pow2_equiv, pow2, lemma_pow2, lemma_pow2_strictly_increases, lemma2_to64};
use vstd::arithmetic::power::pow;
use vstd::bits::{low_bits_mask, lemma_u64_low_bits_mask_is_mod};
use vstd::set_lib::lemma_len_subset;
use crate::hash::HashKey;
use crate::raw_alloc::lemma_pow2_double_le;

verus! {

broadcast use vstd::set::group_set_axioms, vstd::map::group_map_axioms;

/// Minimum number of buckets in any table, so index masking is always
/// well defined.
pub const MIN_CAP: usize = 4;

/// Largest bucket-array size the table will grow to; a power of two chosen
/// so that all load-factor arithmetic stays comfortably inside the machine
/// integer range.
pub const MAX_CAP: usize = 0x2000_0000;

/// Failure of an insertion: the bucket array would have to grow beyond what
/// the allocator can provide, so the triggering operation is abandoned and
/// the table is left in its prior valid state.
#[derive(Clone, Copy, Debug, PartialEq, Eq, Structural)]
pub enum AllocError {
    Exhausted,
}

/// What an insertion returns: on success, the value previously stored under
/// the key, if any; otherwise the explicit growth failure.
pub type InsertOutcome<V> = Result<Option<V>, AllocError>;

/// One slot of the bucket array: empty, or an entry together with the probe
/// distance at which it currently resides.
pub enum Bucket<K, V> {
    Empty,
    Occupied { key: K, value: V, dist: usize },
}

/// Whether slot `i` holds an entry.
pub open spec fn occ<K, V>(s: Seq<Bucket<K, V>>, i: int) -> bool {
    s[i] is Occupied
}

/// The key stored at slot `i` (meaningful only when occupied).
pub open spec fn key_at<K, V>(s: Seq<Bucket<K, V>>, i: int) -> K {
    s[i]->key
}

/// The value stored at slot `i` (meaningful only when occupied).
pub open spec fn val_at<K, V>(s: Seq<Bucket<K, V>>, i: int) -> V {
    s[i]->value
}

/// The stored probe distance of slot `i` (meaningful only when occupied).
pub open spec fn dist_at<K, V>(s: Seq<Bucket<K, V>>, i: int) -> int {
    s[i]->dist as int
}

/// The index reached after probing `t` slots forward from `slot`, wrapping
/// at `cap`; defined for `0 <= slot < cap` and `0 <= t < cap`.
pub open spec fn probe_ix(cap: int, slot: int, t: int) -> int {
    if slot + t < cap {
        slot + t
    } else {
        slot + t - cap
    }
}

/// The probe distance from ideal index `slot` to index `i`, wrapping at
/// `cap`; defined for `0 <= slot < cap` and `0 <= i < cap`.
pub open spec fn probe_len(cap: int, slot: int, i: int) -> int {
    if i >= slot {
        i - slot
    } else {
        i + cap - slot
    }
}

/// The slot after `i`, wrapping at `cap`.
pub open spec fn succ_ix(cap: int, i: int) -> int {
    if i + 1 == cap {
        0
    } else {
        i + 1
    }
}

/// The slot before `i`, wrapping at `cap`.
pub open spec fn prev_ix(cap: int, i: int) -> int {
    if i == 0 {
        cap - 1
    } else {
        i - 1
    }
}

/// The ideal index of key `k` in a table of `cap` buckets under `seed`.
pub open spec fn slot_of<K: HashKey>(k: K, seed: u64, cap: int) -> int {
    (k.hash_spec(seed) as int) % cap
}

/// Every occupied bucket stores exactly its true probe distance.
pub open spec fn dists_ok<K: HashKey, V>(s: Seq<Bucket<K, V>>, seed: u64) -> bool {
    forall|i: int|
        0 <= i < s.len() && #[trigger] occ(s, i) ==> dist_at(s, i) == probe_len(
            s.len() as int,
            slot_of(key_at(s, i), seed, s.len() as int),
            i,
        )
}

/// The Robin Hood shape: an entry with positive distance follows an
/// occupied bucket whose distance is at most one smaller.  This is what
/// bounds probe-length variance and justifies the early-exit rule.
pub open spec fn rh_ok<K, V>(s: Seq<Bucket<K, V>>) -> bool {
    forall|i: int|
        0 <= i < s.len() && #[trigger] occ(s, i) && dist_at(s, i) > 0 ==> occ(
            s,
            prev_ix(s.len() as int, i),
        ) && dist_at(s, prev_ix(s.len() as int, i)) >= dist_at(s, i) - 1
}

/// No two occupied buckets hold the same key.
pub open spec fn keys_unique<K, V>(s: Seq<Bucket<K, V>>) -> bool {
    forall|i: int, j: int|
        0 <= i < s.len() && 0 <= j < s.len() && i != j && #[trigger] occ(s, i) && #[trigger] occ(
            s,
            j,
        ) ==> key_at(s, i) != key_at(s, j)
}

/// The bucket array represents exactly the abstract map `m`.
pub open spec fn matches_contents<K, V>(s: Seq<Bucket<K, V>>, m: Map<K, V>) -> bool {
    &&& forall|i: int|
        0 <= i < s.len() && #[trigger] occ(s, i) ==> m.contains_key(key_at(s, i)) && m[key_at(
            s,
            i,
        )] == val_at(s, i)
    &&& forall|k: K|
        #[trigger] m.contains_key(k) ==> exists|i: int|
            0 <= i < s.len() && #[trigger] occ(s, i) && key_at(s, i) == k
}

/// A hash table using Robin Hood linear probing over one contiguously
/// allocated bucket array.
#[verifier::reject_recursive_types(K)]
pub struct RobinHoodTable<K, V> {
    buckets: Vec<Bucket<K, V>>,
    len: usize,
    seed: u64,
    contents: Ghost<Map<K, V>>,
}

impl<K, V> View for RobinHoodTable<K, V> {
    type V = Map<K, V>;

    closed spec fn view(&self) -> Map<K, V> {
        self.contents@
    }
}

impl<K: HashKey, V> RobinHoodTable<K, V> {
    /// The number of buckets in the backing array.
    pub closed spec fn spec_cap(self) -> int {
        self.buckets@.len() as int
    }

    /// The bucket array itself, for stating structural laws.
    pub closed spec fn spec_buckets(self) -> Seq<Bucket<K, V>> {
        self.buckets@
    }

    /// The hashing seed of this instance.
    pub closed spec fn spec_seed(self) -> u64 {
        self.seed
    }

    /// The stored entry count.
    pub closed spec fn spec_len(self) -> int {
        self.len as int
    }

    /// The table's invariant: a power-of-two bucket count within bounds,
    /// correct stored distances, the Robin Hood shape, no duplicate keys,
    /// agreement between the bucket array and the abstract map, and the
    /// load factor kept at or below nine tenths.
    pub closed spec fn wf(self) -> bool {
        &&& MIN_CAP <= self.spec_cap() <= MAX_CAP
        &&& is_pow2(self.spec_cap())
        &&& dists_ok(self.buckets@, self.seed)
        &&& rh_ok(self.buckets@)
        &&& keys_unique(self.buckets@)
        &&& matches_contents(self.buckets@, self.contents@)
        &&& self.contents@.dom().finite()
        &&& self.contents@.dom().len() == self.len
        &&& 10 * (self.len as int) <= 9 * self.spec_cap()
    }
}

/// Computes `h mod cap` by masking with `cap - 1`, valid because `cap` is a
/// power of two.
fn mask_index(h: u64, cap: usize) -> (i: usize)
    requires
        MIN_CAP <= cap <= MAX_CAP,
        is_pow2(cap as int),
    ensures
        i as int == (h as int) % (cap as int),
        i < cap,
{
    proof {
        is_pow2_equiv(cap as int);
        let k = choose|k: nat| pow(2, k) == cap as int;
        lemma_pow2(k);
        lemma2_to64();
        if k > 29 {
            lemma_pow2_strictly_increases(29, k);
            assert(false);
        }
        lemma_u64_low_bits_mask_is_mod(h, k);
        assert((cap - 1) as u64 == low_bits_mask(k) as u64);
        assert(cap as u64 == pow2(k) as u64);
    }
    (h & ((cap as u64) - 1)) as usize
}

/// A fresh bucket array of `n` empty slots.
fn make_buckets<K, V>(n: usize) -> (v: Vec<Bucket<K, V>>)
    ensures
        v@.len() == n,
        forall|i: int| 0 <= i < n ==> !occ(v@, i),
{
    let mut v: Vec<Bucket<K, V>> = Vec::new();
    let mut i: usize = 0;
    while i < n
        invariant
            i <= n,
            v@.len() == i,
            forall|j: int| 0 <= j < i ==> !occ(v@, j),
        decreases n - i,
    {
        let ghost vs = v@;
        v.push(Bucket::Empty);
        proof {
            assert forall|j: int| 0 <= j <= i implies !occ(v@, j) by {
                if j < i {
                    assert(!occ(vs, j));
                    assert(v@[j] == vs[j]);
                } else {
                    assert(v@[j] is Empty);
                }
            }
        }
        i = i + 1;
    }
    v
}

/// Walking backward from an occupied bucket along its probe path: every
/// slot of the path is occupied, with stored distance at least its offset
/// from the ideal slot.
proof fn lemma_walk_back<K: HashKey, V>(s: Seq<Bucket<K, V>>, seed: u64, i: int, t: int)
    requires
        dists_ok(s, seed),
        rh_ok(s),
        0 <= i < s.len(),
        occ(s, i),
        0 <= t <= dist_at(s, i),
    ensures
        occ(s, probe_ix(s.len() as int, slot_of(key_at(s, i), seed, s.len() as int), t)),
        dist_at(s, probe_ix(s.len() as int, slot_of(key_at(s, i), seed, s.len() as int), t)) >= t,
    decreases dist_at(s, i) - t,
{
    let cap = s.len() as int;
    let slot = slot_of(key_at(s, i), seed, cap);
    let d = dist_at(s, i);
    assert(0 <= slot < cap);
    assert(d == probe_len(cap, slot, i));
    if t == d {
        assert(probe_ix(cap, slot, d) == i);
    } else {
        lemma_walk_back(s, seed, i, t + 1);
        let j = probe_ix(cap, slot, t + 1);
        assert(occ(s, j) && dist_at(s, j) >= t + 1);
        assert(prev_ix(cap, j) == probe_ix(cap, slot, t));
    }
}

/// If a probe from `k`'s ideal slot has passed `t` buckets, none holding
/// `k`, and has now stopped (an empty bucket, a bucket whose stored
/// distance is smaller than the distance travelled, or a full sweep), then
/// `k` is not in the table.
proof fn lemma_absent<K: HashKey, V>(
    s: Seq<Bucket<K, V>>,
    seed: u64,
    m: Map<K, V>,
    k: K,
    slot: int,
    t: int,
)
    requires
        dists_ok(s, seed),
        rh_ok(s),
        matches_contents(s, m),
        s.len() > 0,
        slot == slot_of(k, seed, s.len() as int),
        0 <= t <= s.len(),
        forall|u: int|
            0 <= u < t ==> occ(s, #[trigger] probe_ix(s.len() as int, slot, u)) && key_at(
                s,
                probe_ix(s.len() as int, slot, u),
            ) != k,
        t < s.len() ==> (!occ(s, probe_ix(s.len() as int, slot, t)) || dist_at(
            s,
            probe_ix(s.len() as int, slot, t),
        ) < t),
    ensures
        !m.contains_key(k),
{
    let cap = s.len() as int;
    if m.contains_key(k) {
        let i0 = choose|i0: int| 0 <= i0 < cap && #[trigger] occ(s, i0) && key_at(s, i0) == k;
        let d0 = dist_at(s, i0);
        assert(d0 == probe_len(cap, slot, i0));
        assert(0 <= d0 < cap);
        assert(probe_ix(cap, slot, d0) == i0);
        if d0 < t {
            assert(key_at(s, probe_ix(cap, slot, d0)) != k);
            assert(false);
        } else {
            lemma_walk_back(s, seed, i0, t);
            assert(false);
        }
    }
}

/// A table whose abstract map is smaller than its bucket array has an
/// empty bucket.
proof fn lemma_exists_empty<K, V>(s: Seq<Bucket<K, V>>, m: Map<K, V>)
    requires
        keys_unique(s),
        matches_contents(s, m),
        m.dom().finite(),
        m.dom().len() < s.len(),
    ensures
        exists|e: int| 0 <= e < s.len() && !occ(s, e),
{
    if forall|e: int| 0 <= e < s.len() ==> #[trigger] occ(s, e) {
        let ks = Seq::new(s.len(), |i: int| key_at(s, i));
        assert forall|i: int, j: int|
            0 <= i < ks.len() && 0 <= j < ks.len() && i != j implies ks[i] != ks[j] by {
            assert(occ(s, i));
            assert(occ(s, j));
        }
        assert(ks.no_duplicates());
        ks.unique_seq_to_set();
        assert forall|k: K| ks.to_set().contains(k) implies m.dom().contains(k) by {
            let i = choose|i: int| 0 <= i < ks.len() && ks[i] == k;
            assert(occ(s, i));
        }
        assert(ks.to_set() <= m.dom());
        lemma_len_subset(ks.to_set(), m.dom());
        assert(false);
    }
}

/// Placing a fresh entry into an empty slot adds exactly that entry to the
/// represented map and keeps keys unique.
proof fn lemma_fill_slot<K, V>(s: Seq<Bucket<K, V>>, marr: Map<K, V>, i: int, kn: K, vn: V, d: usize)
    requires
        matches_contents(s, marr),
        keys_unique(s),
        0 <= i < s.len(),
        !occ(s, i),
        !marr.contains_key(kn),
    ensures
        matches_contents(
            s.update(i, Bucket::Occupied { key: kn, value: vn, dist: d }),
            marr.insert(kn, vn),
        ),
        keys_unique(s.update(i, Bucket::Occupied { key: kn, value: vn, dist: d })),
{
    let s2 = s.update(i, Bucket::Occupied { key: kn, value: vn, dist: d });
    let m2 = marr.insert(kn, vn);
    assert forall|a: int, b: int|
        0 <= a < s2.len() && 0 <= b < s2.len() && a != b && occ(s2, a) && occ(
            s2,
            b,
        ) implies key_at(s2, a) != key_at(s2, b) by {
        if a != i && b != i {
            assert(occ(s, a));
            assert(occ(s, b));
        } else {
            let j = if a == i {
                b
            } else {
                a
            };
            assert(occ(s, j));
            assert(marr.contains_key(key_at(s, j)));
        }
    }
    assert forall|j: int| 0 <= j < s2.len() && occ(s2, j) implies m2.contains_key(
        key_at(s2, j),
    ) && m2[key_at(s2, j)] == val_at(s2, j) by {
        if j != i {
            assert(occ(s, j));
            assert(marr.contains_key(key_at(s, j)));
        }
    }
    assert forall|k: K| m2.contains_key(k) implies exists|j: int|
        0 <= j < s2.len() && #[trigger] occ(s2, j) && key_at(s2, j) == k by {
        if k == kn {
            assert(occ(s2, i) && key_at(s2, i) == k);
        } else {
            let j = choose|j: int| 0 <= j < s.len() && #[trigger] occ(s, j) && key_at(s, j) == k;
            assert(occ(s2, j) && key_at(s2, j) == k);
        }
    }
}

/// Replacing the entry of an occupied slot (whose key moves into the
/// caller's hands) with an entry whose key is either the same or absent
/// from the array swaps exactly those entries in the represented map.
proof fn lemma_swap_slot<K, V>(s: Seq<Bucket<K, V>>, marr: Map<K, V>, i: int, kn: K, vn: V, d: usize)
    requires
        matches_contents(s, marr),
        keys_unique(s),
        0 <= i < s.len(),
        occ(s, i),
        kn == key_at(s, i) || !marr.contains_key(kn),
    ensures
        matches_contents(
            s.update(i, Bucket::Occupied { key: kn, value: vn, dist: d }),
            marr.remove(key_at(s, i)).insert(kn, vn),
        ),
        keys_unique(s.update(i, Bucket::Occupied { key: kn, value: vn, dist: d })),
{
    let s2 = s.update(i, Bucket::Occupied { key: kn, value: vn, dist: d });
    let kb = key_at(s, i);
    let m2 = marr.remove(kb).insert(kn, vn);
    assert forall|a: int, b: int|
        0 <= a < s2.len() && 0 <= b < s2.len() && a != b && occ(s2, a) && occ(
            s2,
            b,
        ) implies key_at(s2, a) != key_at(s2, b) by {
        if a != i && b != i {
            assert(occ(s, a));
            assert(occ(s, b));
        } else {
            let j = if a == i {
                b
            } else {
                a
            };
            assert(occ(s, j));
            if kn != kb {
                assert(marr.contains_key(key_at(s, j)));
            }
        }
    }
    assert forall|j: int| 0 <= j < s2.len() && occ(s2, j) implies m2.contains_key(
        key_at(s2, j),
    ) && m2[key_at(s2, j)] == val_at(s2, j) by {
        if j != i {
            assert(occ(s, j));
            assert(key_at(s, j) != kb);
            if kn != kb {
                assert(marr.contains_key(key_at(s, j)));
            }
        }
    }
    assert forall|k: K| m2.contains_key(k) implies exists|j: int|
        0 <= j < s2.len() && #[trigger] occ(s2, j) && key_at(s2, j) == k by {
        if k == kn {
            assert(occ(s2, i) && key_at(s2, i) == k);
        } else {
            assert(marr.contains_key(k) && k != kb);
            let j = choose|j: int| 0 <= j < s.len() && #[trigger] occ(s, j) && key_at(s, j) == k;
            assert(j != i);
            assert(occ(s2, j) && key_at(s2, j) == k);
        }
    }
}

/// Writing an entry whose stored distance is exact, no smaller than that of
/// any resident it displaces, and covered on its left by its predecessor,
/// preserves correct distances and the Robin Hood shape.
proof fn lemma_update_dists_rh<K: HashKey, V>(
    s: Seq<Bucket<K, V>>,
    sd: u64,
    i: int,
    kn: K,
    vn: V,
    d: usize,
)
    requires
        dists_ok(s, sd),
        rh_ok(s),
        0 <= i < s.len(),
        d as int == probe_len(s.len() as int, slot_of(kn, sd, s.len() as int), i),
        d > 0 ==> occ(s, prev_ix(s.len() as int, i)) && dist_at(s, prev_ix(s.len() as int, i))
            >= d - 1,
        occ(s, i) ==> dist_at(s, i) <= d as int,
    ensures
        dists_ok(s.update(i, Bucket::Occupied { key: kn, value: vn, dist: d }), sd),
        rh_ok(s.update(i, Bucket::Occupied { key: kn, value: vn, dist: d })),
{
    let capi = s.len() as int;
    let s2 = s.update(i, Bucket::Occupied { key: kn, value: vn, dist: d });
    assert forall|j: int| 0 <= j < s2.len() && #[trigger] occ(s2, j) implies dist_at(s2, j)
        == probe_len(capi, slot_of(key_at(s2, j), sd, capi), j) by {
        if j != i {
            assert(occ(s, j));
        }
    }
    assert forall|j: int|
        0 <= j < s2.len() && #[trigger] occ(s2, j) && dist_at(s2, j) > 0 implies occ(
        s2,
        prev_ix(capi, j),
    ) && dist_at(s2, prev_ix(capi, j)) >= dist_at(s2, j) - 1 by {
        if j == i {
            assert(prev_ix(capi, j) != i);
        } else {
            assert(occ(s, j));
            if prev_ix(capi, j) == i {
                if occ(s, i) {
                    assert(dist_at(s, j) <= dist_at(s, i) + 1);
                } else {
                    assert(!occ(s, prev_ix(capi, j)));
                }
            }
        }
    }
}

/// The Robin Hood condition at a single slot.
pub open spec fn rh_at<K, V>(s: Seq<Bucket<K, V>>, x: int) -> bool {
    occ(s, x) && dist_at(s, x) > 0 ==> occ(s, prev_ix(s.len() as int, x)) && dist_at(
        s,
        prev_ix(s.len() as int, x),
    ) >= dist_at(s, x) - 1
}

/// Emptying an occupied slot removes exactly its key from the represented
/// map.
proof fn lemma_empty_slot<K, V>(s: Seq<Bucket<K, V>>, marr: Map<K, V>, i: int)
    requires
        matches_contents(s, marr),
        keys_unique(s),
        0 <= i < s.len(),
        occ(s, i),
    ensures
        matches_contents(s.update(i, Bucket::Empty), marr.remove(key_at(s, i))),
        keys_unique(s.update(i, Bucket::Empty)),
{
    let s2 = s.update(i, Bucket::Empty);
    let kb = key_at(s, i);
    let m2 = marr.remove(kb);
    assert forall|a: int, b: int|
        0 <= a < s2.len() && 0 <= b < s2.len() && a != b && occ(s2, a) && occ(
            s2,
            b,
        ) implies key_at(s2, a) != key_at(s2, b) by {
        assert(occ(s, a));
        assert(occ(s, b));
    }
    assert forall|j: int| 0 <= j < s2.len() && occ(s2, j) implies m2.contains_key(
        key_at(s2, j),
    ) && m2[key_at(s2, j)] == val_at(s2, j) by {
        assert(occ(s, j));
        assert(key_at(s, j) != kb);
    }
    assert forall|k: K| m2.contains_key(k) implies exists|j: int|
        0 <= j < s2.len() && #[trigger] occ(s2, j) && key_at(s2, j) == k by {
        assert(marr.contains_key(k) && k != kb);
        let j = choose|j: int| 0 <= j < s.len() && #[trigger] occ(s, j) && key_at(s, j) == k;
        assert(j != i);
        assert(occ(s2, j) && key_at(s2, j) == k);
    }
}

/// Moving an entry from one slot to an empty slot leaves the represented
/// map unchanged.
proof fn lemma_move_slot<K, V>(s: Seq<Bucket<K, V>>, marr: Map<K, V>, from: int, to: int, d: usize)
    requires
        matches_contents(s, marr),
        keys_unique(s),
        0 <= from < s.len(),
        0 <= to < s.len(),
        from != to,
        occ(s, from),
        !occ(s, to),
    ensures
        matches_contents(
            s.update(from, Bucket::Empty).update(
                to,
                Bucket::Occupied { key: key_at(s, from), value: val_at(s, from), dist: d },
            ),
            marr,
        ),
        keys_unique(
            s.update(from, Bucket::Empty).update(
                to,
                Bucket::Occupied { key: key_at(s, from), value: val_at(s, from), dist: d },
            ),
        ),
{
    let kb = key_at(s, from);
    let s2 = s.update(from, Bucket::Empty).update(
        to,
        Bucket::Occupied { key: kb, value: val_at(s, from), dist: d },
    );
    assert forall|a: int, b: int|
        0 <= a < s2.len() && 0 <= b < s2.len() && a != b && occ(s2, a) && occ(
            s2,
            b,
        ) implies key_at(s2, a) != key_at(s2, b) by {
        let a2 = if a == to {
            from
        } else {
            a
        };
        let b2 = if b == to {
            from
        } else {
            b
        };
        assert(occ(s, a2));
        assert(occ(s, b2));
        assert(key_at(s2, a) == key_at(s, a2));
        assert(key_at(s2, b) == key_at(s, b2));
    }
    assert forall|j: int| 0 <= j < s2.len() && occ(s2, j) implies marr.contains_key(
        key_at(s2, j),
    ) && marr[key_at(s2, j)] == val_at(s2, j) by {
        if j == to {
            assert(occ(s, from));
        } else {
            assert(occ(s, j));
        }
    }
    assert forall|k: K| marr.contains_key(k) implies exists|j: int|
        0 <= j < s2.len() && #[trigger] occ(s2, j) && key_at(s2, j) == k by {
        let j = choose|j: int| 0 <= j < s.len() && #[trigger] occ(s, j) && key_at(s, j) == k;
        if j == from {
            assert(occ(s2, to) && key_at(s2, to) == k);
        } else {
            assert(occ(s2, j) && key_at(s2, j) == k);
        }
    }
}

impl<K: HashKey, V> RobinHoodTable<K, V> {
    /// Builds an empty table with the given seed and at least `n` buckets:
    /// the capacity is `n` rounded up to a power of two, no smaller than the
    /// minimum floor, and as small as those constraints allow.
    pub fn with_capacity_and_seed(n: usize, seed: u64) -> (t: Self)
        requires
            n <= MAX_CAP,
        ensures
            t.wf(),
            t@ == Map::<K, V>::empty(),
            t.spec_seed() == seed,
            n <= t.spec_cap(),
            is_pow2(t.spec_cap()),
            forall|c: int| is_pow2(c) && n <= c && MIN_CAP <= c ==> t.spec_cap() <= c,
    {
        proof {
            is_pow2_equiv(MIN_CAP as int);
            is_pow2_equiv(MAX_CAP as int);
            lemma_pow2(2);
            lemma_pow2(29);
            lemma2_to64();
            assert(pow(2, 2) == MIN_CAP as int);
            assert(pow(2, 29) == MAX_CAP as int);
        }
        let mut cap: usize = MIN_CAP;
        while cap < n
            invariant
                n <= MAX_CAP,
                MIN_CAP <= cap <= MAX_CAP,
                is_pow2(cap as int),
                is_pow2(MAX_CAP as int),
                forall|c: int| is_pow2(c) && n <= c && MIN_CAP <= c ==> cap <= c,
            decreases 2 * n - cap,
        {
            proof {
                if (cap as int) < MAX_CAP as int {
                    lemma_pow2_double_le(cap as int, MAX_CAP as int);
                }
                assert forall|c: int| is_pow2(c) && n <= c && MIN_CAP <= c implies 2 * cap <= c by {
                    if c < 2 * cap {
                        if cap < c {
                            lemma_pow2_double_le(cap as int, c);
                        }
                        assert(c <= cap);
                        assert(false);
                    }
                }
                assert(is_pow2(2 * cap as int)) by {
                    reveal(is_pow2);
                }
            }
            cap = cap * 2;
        }
        let buckets = make_buckets::<K, V>(cap);
        let t = RobinHoodTable {
            buckets,
            len: 0usize,
            seed,
            contents: Ghost(Map::<K, V>::empty()),
        };
        proof {
            assert(t.contents@.dom() =~= Set::<K>::empty());
        }
        t
    }

    /// The number of entries in the table.
    pub fn len(&self) -> (n: usize)
        requires
            self.wf(),
        ensures
            n == self@.dom().len(),
    {
        self.len
    }

    /// The number of buckets currently allocated.
    pub fn capacity(&self) -> (c: usize)
        requires
            self.wf(),
        ensures
            c == self.spec_cap(),
    {
        self.buckets.len()
    }

    /// Looks a key up, probing forward from its ideal index and stopping as
    /// soon as an empty bucket, or one whose stored distance is smaller than
    /// the distance travelled, proves the key absent.
    pub fn get<'a>(&'a self, k: &K) -> (r: Option<&'a V>)
        requires
            self.wf(),
        ensures
            match r {
                Some(v) => self@.contains_key(*k) && *v == self@[*k],
                None => !self@.contains_key(*k),
            },
    {
        let cap = self.buckets.len();
        let slot = mask_index(k.hash_of(self.seed), cap);
        let ghost s = self.buckets@;
        let ghost capi = cap as int;
        let ghost sloti = slot as int;
        let mut t: usize = 0;
        let mut i: usize = slot;
        while t < cap
            invariant
                self.wf(),
                s == self.buckets@,
                cap == self.spec_cap(),
                sloti == slot_of(*k, self.seed, capi),
                capi == cap as int,
                sloti == slot as int,
                0 <= slot < cap,
                t <= cap,
                i as int == probe_ix(capi, sloti, t as int),
                forall|u: int|
                    0 <= u < t ==> occ(s, #[trigger] probe_ix(capi, sloti, u)) && key_at(
                        s,
                        probe_ix(capi, sloti, u),
                    ) != *k,
            decreases cap - t,
        {
            match &self.buckets[i] {
                Bucket::Empty => {
                    proof {
                        lemma_absent(s, self.seed, self.contents@, *k, sloti, t as int);
                    }
                    return None;
                },
                Bucket::Occupied { key, value, dist } => {
                    if k.eq_key(key) {
                        proof {
                            assert(occ(s, i as int));
                            assert(key_at(s, i as int) == *key);
                            assert(val_at(s, i as int) == *value);
                        }
                        return Some(value);
                    }
                    if *dist < t {
                        proof {
                            lemma_absent(s, self.seed, self.contents@, *k, sloti, t as int);
                        }
                        return None;
                    }
                },
            }
            t = t + 1;
            i = if i + 1 == cap {
                0
            } else {
                i + 1
            };
        }
        proof {
            lemma_absent(s, self.seed, self.contents@, *k, sloti, t as int);
        }
        None
    }

    /// Finishes an insertion whose probe ended at the empty slot `i`: the
    /// carried entry comes to rest there.
    #[verifier::rlimit(100)]
    fn finish_place(&mut self, i: usize, ckey: K, cval: V, cdist: usize, Ghost(marr): Ghost<Map<K, V>>)
        requires
            MIN_CAP <= old(self).spec_cap() <= MAX_CAP,
            is_pow2(old(self).spec_cap()),
            dists_ok(old(self).spec_buckets(), old(self).spec_seed()),
            rh_ok(old(self).spec_buckets()),
            keys_unique(old(self).spec_buckets()),
            matches_contents(old(self).spec_buckets(), marr),
            marr.dom().finite(),
            marr.dom().len() == old(self).spec_len(),
            10 * (old(self).spec_len() + 1) <= 9 * old(self).spec_cap(),
            (i as int) < old(self).spec_cap(),
            !occ(old(self).spec_buckets(), i as int),
            cdist as int == probe_len(
                old(self).spec_cap(),
                slot_of(ckey, old(self).spec_seed(), old(self).spec_cap()),
                i as int,
            ),
            cdist > 0 ==> occ(old(self).spec_buckets(), prev_ix(old(self).spec_cap(), i as int))
                && dist_at(old(self).spec_buckets(), prev_ix(old(self).spec_cap(), i as int))
                >= cdist - 1,
            !marr.contains_key(ckey),
        ensures
            final(self).wf(),
            final(self)@ == marr.insert(ckey, cval),
            final(self).spec_cap() == old(self).spec_cap(),
            final(self).spec_seed() == old(self).spec_seed(),
    {
        let ghost sb = self.buckets@;
        let ghost sd = self.seed;
        proof {
            lemma_fill_slot(sb, marr, i as int, ckey, cval, cdist);
            lemma_update_dists_rh(sb, sd, i as int, ckey, cval, cdist);
        }
        let ghost ck = ckey;
        self.buckets.set(i, Bucket::Occupied { key: ckey, value: cval, dist: cdist });
        self.len = self.len + 1;
        proof {
            self.contents@ = marr.insert(ck, cval);
            assert(self.contents@.dom() =~= marr.dom().insert(ck));
        }
    }

    /// Finishes an insertion whose probe found the key already resident at
    /// slot `i`: the value is replaced in place, the stored distance kept,
    /// and the previous value handed back.
    #[verifier::rlimit(100)]
    fn finish_replace(&mut self, i: usize, ckey: K, cval: V, bdist: usize, Ghost(marr): Ghost<Map<K, V>>)
        -> (r: V)
        requires
            MIN_CAP <= old(self).spec_cap() <= MAX_CAP,
            is_pow2(old(self).spec_cap()),
            dists_ok(old(self).spec_buckets(), old(self).spec_seed()),
            rh_ok(old(self).spec_buckets()),
            keys_unique(old(self).spec_buckets()),
            matches_contents(old(self).spec_buckets(), marr),
            marr.dom().finite(),
            marr.dom().len() == old(self).spec_len(),
            10 * old(self).spec_len() <= 9 * old(self).spec_cap(),
            (i as int) < old(self).spec_cap(),
            occ(old(self).spec_buckets(), i as int),
            key_at(old(self).spec_buckets(), i as int) == ckey,
            dist_at(old(self).spec_buckets(), i as int) == bdist,
        ensures
            final(self).wf(),
            final(self)@ == marr.insert(ckey, cval),
            final(self).spec_cap() == old(self).spec_cap(),
            final(self).spec_seed() == old(self).spec_seed(),
            marr.contains_key(ckey) && r == marr[ckey],
    {
        let ghost sb = self.buckets@;
        let ghost sd = self.seed;
        proof {
            assert(occ(sb, i as int));
            assert(marr.contains_key(ckey));
            lemma_swap_slot(sb, marr, i as int, ckey, cval, bdist);
            assert(slot_of(ckey, sd, self.spec_cap()) == slot_of(key_at(sb, i as int), sd, self.spec_cap()));
            lemma_update_dists_rh(sb, sd, i as int, ckey, cval, bdist);
        }
        let ghost ck = ckey;
        let mut tmp = Bucket::Occupied { key: ckey, value: cval, dist: bdist };
        self.buckets.set_and_swap(i, &mut tmp);
        let old_v = match tmp {
            Bucket::Occupied { key: _, value: vv, dist: _ } => vv,
            Bucket::Empty => unreached(),
        };
        proof {
            self.contents@ = marr.remove(ck).insert(ck, cval);
            assert(self.contents@ =~= marr.insert(ck, cval));
            assert(val_at(sb, i as int) == marr[ck]);
            assert(self.contents@.dom() =~= marr.dom().insert(ck));
        }
        old_v
    }

    /// The probing heart of insertion: places `(key, value)` by Robin Hood
    /// linear probing, stealing buckets from entries with smaller stored
    /// distance and carrying the displaced entry forward.  The capacity must
    /// already accommodate one more entry.
    #[verifier::rlimit(100)]
    fn insert_probe(&mut self, key: K, value: V) -> (r: Option<V>)
        requires
            old(self).wf(),
            10 * (old(self)@.dom().len() + 1) <= 9 * old(self).spec_cap(),
        ensures
            final(self).wf(),
            final(self)@ == old(self)@.insert(key, value),
            final(self).spec_cap() == old(self).spec_cap(),
            final(self).spec_seed() == old(self).spec_seed(),
            r == (if old(self)@.contains_key(key) {
                Some(old(self)@[key])
            } else {
                None::<V>
            }),
    {
        let ghost m0 = self.contents@;
        let ghost len0 = self.len as int;
        let ghost sd = self.seed;
        let ghost k0 = key;
        let ghost v0 = value;
        let cap = self.buckets.len();
        let slot = mask_index(key.hash_of(self.seed), cap);
        let ghost capi = cap as int;
        let ghost sloti = slot as int;
        let mut ckey = key;
        let mut cval = value;
        let mut cdist: usize = 0;
        let mut t: usize = 0;
        let mut i: usize = slot;
        let ghost mut marr = m0;
        let ghost mut phase2 = false;
        let mut action: u8 = 0;
        let mut bdist: usize = 0;
        while t < cap
            invariant_except_break
                action == 0,
            invariant
                m0 == old(self)@,
                capi == old(self).spec_cap(),
                sd == old(self).spec_seed(),
                k0 == key,
                v0 == value,
                self.buckets@.len() == cap,
                capi == cap as int,
                sloti == slot as int,
                MIN_CAP <= cap <= MAX_CAP,
                is_pow2(capi),
                self.seed == sd,
                self.len as int == len0,
                self.contents@ == m0,
                m0.dom().finite(),
                10 * (len0 + 1) <= 9 * capi,
                0 <= slot < cap,
                sloti == slot_of(k0, sd, capi),
                t <= cap,
                i as int == probe_ix(capi, sloti, t as int),
                cdist as int <= t as int,
                t < cap ==> cdist as int == probe_len(capi, slot_of(ckey, sd, capi), i as int),
                t < cap && cdist > 0 ==> occ(self.buckets@, prev_ix(capi, i as int)) && dist_at(
                    self.buckets@,
                    prev_ix(capi, i as int),
                ) >= cdist - 1,
                dists_ok(self.buckets@, sd),
                rh_ok(self.buckets@),
                keys_unique(self.buckets@),
                matches_contents(self.buckets@, marr),
                marr.dom().finite(),
                marr.dom().len() == len0,
                marr.insert(ckey, cval) == m0.insert(k0, v0),
                forall|u: int| 0 <= u < t ==> occ(self.buckets@, #[trigger] probe_ix(capi, sloti, u)),
                !phase2 ==> marr == m0 && ckey == k0 && cval == v0 && cdist == t,
                !phase2 ==> forall|u: int|
                    0 <= u < t ==> key_at(self.buckets@, #[trigger] probe_ix(capi, sloti, u)) != k0,
                phase2 ==> !marr.contains_key(ckey) && !m0.contains_key(k0) && marr.contains_key(k0),
                phase2 ==> exists|u0: int|
                    0 <= u0 < t && key_at(self.buckets@, #[trigger] probe_ix(capi, sloti, u0)) == k0,
            ensures
                t <= cap,
                action == 0 || action == 1 || action == 2,
                action == 0 ==> t == cap,
                action == 1 || action == 2 ==> t < cap,
                action == 1 ==> !occ(self.buckets@, i as int),
                action == 2 ==> occ(self.buckets@, i as int) && key_at(self.buckets@, i as int)
                    == ckey && dist_at(self.buckets@, i as int) == bdist,
            decreases cap - t,
        {
            let ghost sb = self.buckets@;
            let mut steal = false;
            match &self.buckets[i] {
                Bucket::Empty => {
                    action = 1;
                },
                Bucket::Occupied { key: bk, value: _, dist: bd } => {
                    if ckey.eq_key(bk) {
                        action = 2;
                        bdist = *bd;
                    } else if *bd < cdist {
                        steal = true;
                    }
                },
            }
            if action != 0 {
                break;
            }
            if steal {
                // Robin Hood steal: the carried entry is farther from home
                // than the resident, so they trade places and the resident
                // probes on.
                proof {
                    if !phase2 {
                        lemma_absent(self.buckets@, sd, marr, k0, sloti, t as int);
                    }
                    lemma_swap_slot(sb, marr, i as int, ckey, cval, cdist);
                    lemma_update_dists_rh(sb, sd, i as int, ckey, cval, cdist);
                }
                let ghost ck_in = ckey;
                let ghost cv_in = cval;
                let mut tmp = Bucket::Occupied { key: ckey, value: cval, dist: cdist };
                self.buckets.set_and_swap(i, &mut tmp);
                let (k2, v2, d2) = match tmp {
                    Bucket::Occupied { key: kk, value: vv, dist: dd } => (kk, vv, dd),
                    Bucket::Empty => unreached(),
                };
                ckey = k2;
                cval = v2;
                cdist = d2;
                proof {
                    let s2 = self.buckets@;
                    let kb = key_at(sb, i as int);
                    let bv = val_at(sb, i as int);
                    assert(occ(sb, i as int));
                    assert(ckey == kb && cval == bv && cdist as int == dist_at(sb, i as int));
                    assert(kb != ck_in);
                    let marr2 = marr.remove(kb).insert(ck_in, cv_in);
                    assert(marr2.insert(ckey, cval) =~= marr.insert(ck_in, cv_in)) by {
                        assert(marr.contains_key(kb));
                        assert(marr[kb] == bv);
                    }
                    assert(marr2.dom() =~= marr.dom().remove(kb).insert(ck_in));
                    if !phase2 {
                        assert(!m0.contains_key(k0));
                        assert(marr2.contains_key(k0));
                    } else {
                        let u0 = choose|u0: int|
                            0 <= u0 < t && key_at(sb, #[trigger] probe_ix(capi, sloti, u0)) == k0;
                        assert(probe_ix(capi, sloti, u0) != i as int);
                        assert(occ(sb, probe_ix(capi, sloti, u0)));
                        assert(kb != k0);
                        assert(marr2.contains_key(k0));
                        assert(key_at(s2, probe_ix(capi, sloti, u0)) == k0);
                    }
                    marr = marr2;
                    phase2 = true;
                    assert(key_at(s2, probe_ix(capi, sloti, t as int)) == ck_in);
                }
            }
            // Probe one slot further; the carried entry's distance grows by
            // one.
            proof {
                let s2 = self.buckets@;
                assert(occ(s2, i as int));
                assert(dist_at(s2, i as int) >= cdist as int);
                if t + 1 < cap {
                    assert(cdist + 1 <= t + 1);
                    assert(probe_len(capi, slot_of(ckey, sd, capi), probe_ix(capi, sloti, t + 1))
                        == cdist + 1);
                }
            }
            t = t + 1;
            cdist = cdist + 1;
            i = if i + 1 == cap {
                0
            } else {
                i + 1
            };
        }
        proof {
            if action == 0 {
                lemma_exists_empty(self.buckets@, marr);
                let e = choose|e: int| 0 <= e < self.buckets@.len() && !occ(self.buckets@, e);
                let u = probe_len(capi, sloti, e);
                assert(probe_ix(capi, sloti, u) == e);
                assert(occ(self.buckets@, probe_ix(capi, sloti, u)));
                assert(false);
            }
        }
        let ghost sb = self.buckets@;
        if action == 1 {
            proof {
                if !phase2 {
                    lemma_absent(self.buckets@, sd, marr, k0, sloti, t as int);
                }
                assert(!marr.contains_key(ckey));
                assert(!m0.contains_key(k0));
            }
            self.finish_place(i, ckey, cval, cdist, Ghost(marr));
            proof {
                assert(marr.insert(ckey, cval) =~= m0.insert(k0, v0));
            }
            None
        } else {
            proof {
                assert(occ(sb, i as int));
                if phase2 {
                    assert(marr.contains_key(key_at(sb, i as int)));
                    assert(false);
                }
            }
            let old_v = self.finish_replace(i, ckey, cval, bdist, Ghost(marr));
            proof {
                assert(marr.insert(ckey, cval) =~= m0.insert(k0, v0));
                assert(m0.contains_key(k0) && old_v == m0[k0]);
            }
            Some(old_v)
        }
    }

    /// Doubles the bucket array: allocates a fresh array, reinserts every
    /// occupied entry with its displacement recomputed from scratch, and
    /// releases the old array.  The set of entries is preserved exactly.
    fn resize(&mut self)
        requires
            old(self).wf(),
            2 * old(self).spec_cap() <= MAX_CAP,
        ensures
            final(self).wf(),
            final(self)@ == old(self)@,
            final(self).spec_cap() == 2 * old(self).spec_cap(),
            final(self).spec_seed() == old(self).spec_seed(),
    {
        let ghost m0 = self.contents@;
        let ghost sdo = self.seed;
        let ghost capo = self.spec_cap();
        let new_cap = self.buckets.len() * 2;
        let mut nb = make_buckets::<K, V>(new_cap);
        core::mem::swap(&mut self.buckets, &mut nb);
        self.len = 0;
        proof {
            self.contents@ = Map::<K, V>::empty();
            assert(is_pow2(new_cap as int)) by {
                reveal(is_pow2);
            }
            assert(self.contents@.dom() =~= Set::<K>::empty());
            assert(self.wf());
        }
        let ghost nb0 = nb@;
        while nb.len() > 0
            invariant
                self.wf(),
                self.spec_cap() == 2 * capo,
                MIN_CAP <= 2 * capo <= MAX_CAP,
                self.spec_seed() == sdo,
                m0.dom().finite(),
                10 * (m0.dom().len() + 1) <= 9 * self.spec_cap(),
                keys_unique(nb@),
                forall|j: int|
                    0 <= j < nb@.len() && #[trigger] occ(nb@, j) ==> m0.contains_key(key_at(nb@, j))
                        && m0[key_at(nb@, j)] == val_at(nb@, j) && !self@.contains_key(
                        key_at(nb@, j),
                    ),
                forall|k: K|
                    #[trigger] m0.contains_key(k) ==> self@.contains_key(k) || (exists|j: int|
                        0 <= j < nb@.len() && #[trigger] occ(nb@, j) && key_at(nb@, j) == k),
                forall|k: K|
                    #[trigger] self@.contains_key(k) ==> m0.contains_key(k) && self@[k] == m0[k],
            decreases nb.len(),
        {
            let ghost nbs = nb@;
            let ghost sm_old = self@;
            let popped = nb.pop();
            match popped {
                Some(Bucket::Occupied { key, value, dist: _ }) => {
                    proof {
                        assert(occ(nbs, nbs.len() - 1));
                        assert(!self@.contains_key(key));
                        assert(self@.dom().subset_of(m0.dom())) by {
                            assert forall|k: K| self@.dom().contains(k) implies m0.dom().contains(
                                k,
                            ) by {
                                assert(self@.contains_key(k));
                            }
                        }
                        lemma_len_subset(self@.dom(), m0.dom());
                    }
                    let _prev = self.insert_probe(key, value);
                    proof {
                        assert forall|j: int| 0 <= j < nb@.len() && #[trigger] occ(nb@, j) implies
                            m0.contains_key(key_at(nb@, j)) && m0[key_at(nb@, j)] == val_at(nb@, j)
                            && !self@.contains_key(key_at(nb@, j)) by {
                            assert(nb@[j] == nbs[j]);
                            assert(occ(nbs, j));
                            assert(key_at(nbs, j) != key);
                        }
                        assert forall|k: K| #[trigger] m0.contains_key(k) implies
                            self@.contains_key(k) || exists|j: int|
                                0 <= j < nb@.len() && #[trigger] occ(nb@, j) && key_at(nb@, j)
                                    == k by {
                            if !sm_old.contains_key(k) {
                                let j = choose|j: int|
                                    0 <= j < nbs.len() && #[trigger] occ(nbs, j) && key_at(nbs, j)
                                        == k;
                                if j < nbs.len() - 1 {
                                    assert(occ(nb@, j) && key_at(nb@, j) == k);
                                } else {
                                    assert(k == key);
                                }
                            }
                        }
                    }
                },
                Some(Bucket::Empty) => {
                    proof {
                        assert forall|j: int| 0 <= j < nb@.len() && #[trigger] occ(nb@, j) implies
                            m0.contains_key(key_at(nb@, j)) && m0[key_at(nb@, j)] == val_at(nb@, j)
                            && !self@.contains_key(key_at(nb@, j)) by {
                            assert(nb@[j] == nbs[j]);
                            assert(occ(nbs, j));
                        }
                        assert forall|k: K| #[trigger] m0.contains_key(k) implies
                            self@.contains_key(k) || exists|j: int|
                                0 <= j < nb@.len() && #[trigger] occ(nb@, j) && key_at(nb@, j)
                                    == k by {
                            if !self@.contains_key(k) {
                                let j = choose|j: int|
                                    0 <= j < nbs.len() && #[trigger] occ(nbs, j) && key_at(nbs, j)
                                        == k;
                                assert(j < nbs.len() - 1);
                                assert(occ(nb@, j) && key_at(nb@, j) == k);
                            }
                        }
                    }
                },
                None => {
                    proof {
                        assert(false);
                    }
                },
            }
            proof {
                assert forall|a: int, b: int|
                    0 <= a < nb@.len() && 0 <= b < nb@.len() && a != b && occ(nb@, a) && occ(
                        nb@,
                        b,
                    ) implies key_at(nb@, a) != key_at(nb@, b) by {
                    assert(nb@[a] == nbs[a]);
                    assert(nb@[b] == nbs[b]);
                    assert(occ(nbs, a));
                    assert(occ(nbs, b));
                }
            }
        }
        proof {
            assert forall|k: K| #[trigger] m0.contains_key(k) implies self.contents@.contains_key(
                k,
            ) by {}
            assert forall|k: K| #[trigger] self.contents@.contains_key(k) implies m0.contains_key(
                k,
            ) && self.contents@[k] == m0[k] by {
                assert(self@.contains_key(k));
            }
            assert(self.contents@ =~= m0);
        }
    }

    /// Inserts a key/value pair: the previous value comes back if the key
    /// was present.  If the insertion would push the load factor past its
    /// threshold the table first doubles; when it can no longer grow, the
    /// insertion fails explicitly and the table is left exactly as it was.
    pub fn insert(&mut self, key: K, value: V) -> (r: InsertOutcome<V>)
        requires
            old(self).wf(),
        ensures
            final(self).wf(),
            final(self).spec_seed() == old(self).spec_seed(),
            old(self).spec_cap() <= final(self).spec_cap(),
            (r is Ok) ==> final(self)@ == old(self)@.insert(key, value),
            (r is Ok) && old(self)@.contains_key(key) ==> (r->Ok_0 == Some(old(self)@[key])),
            (r is Ok) && !old(self)@.contains_key(key) ==> (r->Ok_0 is None),
            (r is Err) ==> *final(self) == *old(self),
            (r is Err) <==> (10 * (old(self)@.dom().len() + 1) > 9 * old(self).spec_cap() && 2 * old(self).spec_cap() > MAX_CAP),
    {
        let lhs: u64 = 10 * ((self.len as u64) + 1);
        let rhs: u64 = 9 * (self.buckets.len() as u64);
        if lhs > rhs {
            if self.buckets.len() > MAX_CAP / 2 {
                return Err(AllocError::Exhausted);
            }
            self.resize();
        }
        Ok(self.insert_probe(key, value))
    }

    /// Removes a key: the bucket is emptied and the run of displaced
    /// entries behind it shifts one slot backward, each displacement
    /// reduced by one, so that no tombstone is ever left behind.
    #[verifier::rlimit(100)]
    pub fn remove(&mut self, k: &K) -> (r: Option<V>)
        requires
            old(self).wf(),
        ensures
            final(self).wf(),
            final(self)@ == old(self)@.remove(*k),
            final(self).spec_cap() == old(self).spec_cap(),
            final(self).spec_seed() == old(self).spec_seed(),
            r == (if old(self)@.contains_key(*k) {
                Some(old(self)@[*k])
            } else {
                None::<V>
            }),
    {
        let ghost m0 = self.contents@;
        let ghost sd = self.seed;
        let ghost k0r = *k;
        let cap = self.buckets.len();
        let slot = mask_index(k.hash_of(self.seed), cap);
        let ghost capi = cap as int;
        let ghost sloti = slot as int;
        let ghost s0 = self.buckets@;
        let mut t: usize = 0;
        let mut i: usize = slot;
        let mut found = false;
        while t < cap
            invariant_except_break
                found == false,
            invariant
                self.wf(),
                m0 == old(self)@,
                s0 == self.buckets@,
                *self == *old(self),
                cap == self.spec_cap(),
                capi == cap as int,
                sloti == slot as int,
                sd == self.seed,
                k0r == *k,
                0 <= slot < cap,
                sloti == slot_of(k0r, sd, capi),
                t <= cap,
                i as int == probe_ix(capi, sloti, t as int),
                forall|u: int|
                    0 <= u < t ==> occ(s0, #[trigger] probe_ix(capi, sloti, u)) && key_at(
                        s0,
                        probe_ix(capi, sloti, u),
                    ) != k0r,
            ensures
                found ==> (t as int) < capi && i as int == probe_ix(capi, sloti, t as int) && occ(
                    s0,
                    i as int,
                ) && key_at(s0, i as int) == k0r,
                !found ==> t == cap,
            decreases cap - t,
        {
            match &self.buckets[i] {
                Bucket::Empty => {
                    proof {
                        lemma_absent(s0, sd, m0, k0r, sloti, t as int);
                        assert(m0.remove(k0r) =~= m0);
                    }
                    return None;
                },
                Bucket::Occupied { key: bk, value: _, dist: bd } => {
                    if k.eq_key(bk) {
                        found = true;
                        break;
                    }
                    if *bd < t {
                        proof {
                            lemma_absent(s0, sd, m0, k0r, sloti, t as int);
                            assert(m0.remove(k0r) =~= m0);
                        }
                        return None;
                    }
                },
            }
            t = t + 1;
            i = if i + 1 == cap {
                0
            } else {
                i + 1
            };
        }
        if !found {
            proof {
                lemma_absent(s0, sd, m0, k0r, sloti, t as int);
                assert(m0.remove(k0r) =~= m0);
            }
            return None;
        }
        // The key sits at index i: empty its bucket, then close the hole by
        // shifting the displaced run backward.
        let ghost mr = m0.remove(k0r);
        proof {
            assert(occ(s0, i as int));
            assert(m0.contains_key(k0r));
            assert(m0.dom().remove(k0r).len() == m0.dom().len() - 1);
            lemma_empty_slot(s0, m0, i as int);
            lemma_exists_empty(s0, m0);
        }
        let ghost eg = choose|e: int| 0 <= e < capi && !occ(s0, e);
        let mut tmp = Bucket::Empty;
        self.buckets.set_and_swap(i, &mut tmp);
        let removed = match tmp {
            Bucket::Occupied { key: _, value: vv, dist: _ } => vv,
            Bucket::Empty => unreached(),
        };
        self.len = self.len - 1;
        proof {
            self.contents@ = mr;
            assert(eg != i as int);
            assert(mr.dom() =~= m0.dom().remove(k0r));
            let s1 = self.buckets@;
            assert forall|j2: int| 0 <= j2 < s1.len() && #[trigger] occ(s1, j2) implies dist_at(
                s1,
                j2,
            ) == probe_len(capi, slot_of(key_at(s1, j2), sd, capi), j2) by {
                assert(occ(s0, j2));
            }
            assert forall|x: int|
                0 <= x < capi && x != succ_ix(capi, i as int) implies rh_at(s1, x) by {
                if occ(s1, x) && dist_at(s1, x) > 0 {
                    assert(occ(s0, x));
                    assert(prev_ix(capi, x) != x);
                    if prev_ix(capi, x) != i as int {
                        assert(occ(s0, prev_ix(capi, x)));
                    } else {
                        assert(x == succ_ix(capi, i as int));
                    }
                }
            }
            if occ(s1, succ_ix(capi, i as int)) && dist_at(s1, succ_ix(capi, i as int)) > 1 {
                assert(occ(s0, succ_ix(capi, i as int)));
                assert(dist_at(s0, succ_ix(capi, i as int)) <= dist_at(s0, i as int) + 1);
                assert(dist_at(s0, i as int) > 0);
                assert(occ(s0, prev_ix(capi, i as int)) && dist_at(s0, prev_ix(capi, i as int))
                    >= dist_at(s0, i as int) - 1);
            }
        }
        let mut j = i;
        loop
            invariant
                self.buckets@.len() == cap,
                capi == cap as int,
                MIN_CAP <= cap <= MAX_CAP,
                is_pow2(capi),
                self.seed == sd,
                self.contents@ == mr,
                mr.dom().finite(),
                mr.dom().len() == self.len as int,
                10 * (self.len as int) <= 9 * capi,
                0 <= (j as int) < capi,
                !occ(self.buckets@, j as int),
                0 <= eg < capi,
                !occ(self.buckets@, eg),
                eg != j as int,
                dists_ok(self.buckets@, sd),
                keys_unique(self.buckets@),
                matches_contents(self.buckets@, mr),
                forall|x: int|
                    0 <= x < capi && x != succ_ix(capi, j as int) ==> #[trigger] rh_at(
                        self.buckets@,
                        x,
                    ),
                occ(self.buckets@, succ_ix(capi, j as int)) && dist_at(
                    self.buckets@,
                    succ_ix(capi, j as int),
                ) > 1 ==> occ(self.buckets@, prev_ix(capi, j as int)) && dist_at(
                    self.buckets@,
                    prev_ix(capi, j as int),
                ) >= dist_at(self.buckets@, succ_ix(capi, j as int)) - 2,
            ensures
                self.buckets@.len() == cap,
                self.seed == sd,
                self.contents@ == mr,
                mr.dom().len() == self.len as int,
                dists_ok(self.buckets@, sd),
                keys_unique(self.buckets@),
                matches_contents(self.buckets@, mr),
                rh_ok(self.buckets@),
            decreases probe_len(capi, j as int, eg),
        {
            let nj = if j + 1 == cap {
                0
            } else {
                j + 1
            };
            let mut stop = false;
            match &self.buckets[nj] {
                Bucket::Empty => {
                    stop = true;
                },
                Bucket::Occupied { key: _, value: _, dist } => {
                    if *dist == 0 {
                        stop = true;
                    }
                },
            }
            if stop {
                proof {
                    let s1 = self.buckets@;
                    assert forall|x: int|
                        0 <= x < capi && occ(s1, x) && dist_at(s1, x) > 0 implies occ(
                        s1,
                        prev_ix(capi, x),
                    ) && dist_at(s1, prev_ix(capi, x)) >= dist_at(s1, x) - 1 by {
                        if x != succ_ix(capi, j as int) {
                            assert(rh_at(s1, x));
                        }
                    }
                }
                break;
            }
            let ghost s1 = self.buckets@;
            let mut tmp = Bucket::Empty;
            self.buckets.set_and_swap(nj, &mut tmp);
            let (k3, v3, d3) = match tmp {
                Bucket::Occupied { key: kk, value: vv, dist: dd } => (kk, vv, dd),
                Bucket::Empty => unreached(),
            };
            self.buckets.set(j, Bucket::Occupied { key: k3, value: v3, dist: d3 - 1 });
            proof {
                let s2 = self.buckets@;
                let nji = nj as int;
                let ji = j as int;
                assert(d3 >= 1);
                assert(occ(s1, nji) && key_at(s1, nji) == k3 && val_at(s1, nji) == v3
                    && dist_at(s1, nji) == d3);
                lemma_move_slot(s1, mr, nji, ji, (d3 - 1) as usize);
                assert(s2 == s1.update(nji, Bucket::Empty).update(
                    ji,
                    Bucket::Occupied { key: k3, value: v3, dist: (d3 - 1) as usize },
                ));
                let slot3 = slot_of(k3, sd, capi);
                assert(0 <= slot3 < capi);
                assert(dist_at(s1, nji) == probe_len(capi, slot3, nji));
                assert(dist_at(s2, ji) == probe_len(capi, slot3, ji));
                assert forall|j2: int| 0 <= j2 < s2.len() && #[trigger] occ(s2, j2) implies dist_at(
                    s2,
                    j2,
                ) == probe_len(capi, slot_of(key_at(s2, j2), sd, capi), j2) by {
                    if j2 != ji && j2 != nji {
                        assert(occ(s1, j2));
                    }
                }
                assert forall|x: int|
                    0 <= x < capi && x != succ_ix(capi, nji) implies rh_at(s2, x) by {
                    if occ(s2, x) && dist_at(s2, x) > 0 {
                        if x == ji {
                            assert(dist_at(s1, nji) > 1);
                        } else {
                            assert(x != nji);
                            assert(occ(s1, x));
                            assert(rh_at(s1, x));
                            assert(prev_ix(capi, x) != nji);
                            assert(dist_at(s2, x) == dist_at(s1, x));
                            assert(occ(s1, prev_ix(capi, x)));
                        }
                    }
                }
                if occ(s2, succ_ix(capi, nji)) && dist_at(s2, succ_ix(capi, nji)) > 1 {
                    assert(succ_ix(capi, nji) != nji && succ_ix(capi, nji) != ji);
                    assert(occ(s1, succ_ix(capi, nji)));
                    assert(rh_at(s1, succ_ix(capi, nji)));
                    assert(dist_at(s1, succ_ix(capi, nji)) <= dist_at(s1, nji) + 1);
                }
                assert(eg != nji);
                assert(probe_len(capi, nji, eg) == probe_len(capi, ji, eg) - 1);
            }
            j = nj;
        }
        proof {
            assert(self.wf());
        }
        Some(removed)
    }

    /// The entry stored in bucket `i`, if that bucket is occupied.  Walking
    /// `i` from zero to the capacity enumerates every pair once, in raw
    /// bucket order: an order that is unspecified but stable while the
    /// table is unmodified.
    pub fn entry_at<'a>(&'a self, i: usize) -> (r: Option<(&'a K, &'a V)>)
        requires
            self.wf(),
            (i as int) < self.spec_cap(),
        ensures
            match r {
                Some(kv) => occ(self.spec_buckets(), i as int) && *kv.0 == key_at(
                    self.spec_buckets(),
                    i as int,
                ) && self@.contains_key(*kv.0) && self@[*kv.0] == *kv.1,
                None => !occ(self.spec_buckets(), i as int),
            },
    {
        match &self.buckets[i] {
            Bucket::Occupied { key, value, dist: _ } => {
                proof {
                    assert(occ(self.buckets@, i as int));
                }
                Some((key, value))
            },
            Bucket::Empty => None,
        }
    }

    /// Removes every entry while keeping the current capacity for reuse.
    pub fn clear(&mut self)
        requires
            old(self).wf(),
        ensures
            final(self).wf(),
            final(self)@ == Map::<K, V>::empty(),
            final(self).spec_cap() == old(self).spec_cap(),
            final(self).spec_seed() == old(self).spec_seed(),
    {
        let cap = self.buckets.len();
        let mut nb = make_buckets::<K, V>(cap);
        core::mem::swap(&mut self.buckets, &mut nb);
        self.len = 0;
        proof {
            self.contents@ = Map::<K, V>::empty();
            assert(self.contents@.dom() =~= Set::<K>::empty());
        }
    }

    /// Whether the table holds no entries.
    pub fn is_empty(&self) -> (b: bool)
        requires
            self.wf(),
        ensures
            b == (self@.dom().len() == 0),
    {
        self.len == 0
    }

    /// Whether the key is present.
    pub fn contains_key(&self, k: &K) -> (b: bool)
        requires
            self.wf(),
        ensures
            b == self@.contains_key(*k),
    {
        match self.get(k) {
            Some(_) => true,
            None => false,
        }
    }
}

/// No two occupied buckets ever hold the same key, across insertions,
/// removals and resizes.
pub proof fn lemma_no_duplicate_keys<K: HashKey, V>(t: RobinHoodTable<K, V>, i: int, j: int)
    requires
        t.wf(),
        0 <= i < t.spec_cap(),
        0 <= j < t.spec_cap(),
        i != j,
        occ(t.spec_buckets(), i),
        occ(t.spec_buckets(), j),
    ensures
        key_at(t.spec_buckets(), i) != key_at(t.spec_buckets(), j),
{
}

/// The table is tombstone-free: every bucket is either empty or holds a
/// live entry whose stored displacement equals its true probe distance.
pub proof fn lemma_no_tombstones<K: HashKey, V>(t: RobinHoodTable<K, V>, i: int)
    requires
        t.wf(),
        0 <= i < t.spec_cap(),
    ensures
        occ(t.spec_buckets(), i) ==> dist_at(t.spec_buckets(), i) == probe_len(
            t.spec_cap(),
            slot_of(key_at(t.spec_buckets(), i), t.spec_seed(), t.spec_cap()),
            i,
        ),
        !occ(t.spec_buckets(), i) ==> (t.spec_buckets()[i] is Empty),
{
}

/// The entry count equals the number of keys with a present value; it is
/// never negative and never exceeds nine tenths of the capacity.
pub proof fn lemma_load_factor<K: HashKey, V>(t: RobinHoodTable<K, V>)
    requires
        t.wf(),
    ensures
        t@.dom().len() >= 0,
        10 * t@.dom().len() <= 9 * t.spec_cap(),
{
}

/// The most recent operation on a key decides what a lookup sees: an
/// insertion makes the key map to the inserted value, a removal erases it,
/// and neither touches any other key.
pub proof fn lemma_latest_operation_wins<K, V>(m: Map<K, V>, k: K, v: V)
    ensures
        m.insert(k, v).contains_key(k) && m.insert(k, v)[k] == v,
        !m.remove(k).contains_key(k),
        forall|k2: K|
            k2 != k ==> (#[trigger] m.insert(k, v).contains_key(k2)) == m.contains_key(k2)
                && (#[trigger] m.remove(k).contains_key(k2)) == m.contains_key(k2),
        forall|k2: K|
            k2 != k && m.contains_key(k2) ==> m.insert(k, v)[k2] == m[k2] && m.remove(k)[k2]
                == m[k2],
{
}


/// One mutating table operation, for stating laws over whole histories.
pub enum TableOp<K, V> {
    Insert { key: K, value: V },
    Remove { key: K },
}

/// The abstract map reached by applying a sequence of operations in order.
pub open spec fn apply_ops<K, V>(m: Map<K, V>, ops: Seq<TableOp<K, V>>) -> Map<K, V>
    decreases ops.len(),
{
    if ops.len() == 0 {
        m
    } else {
        let prior = apply_ops(m, ops.drop_last());
        match ops.last() {
            TableOp::Insert { key, value } => prior.insert(key, value),
            TableOp::Remove { key } => prior.remove(key),
        }
    }
}

/// What a lookup of `k` must see after the history `ops` has run from
/// starting state `m`: the value of the most recent insertion of `k` not
/// followed by a removal of `k`, the starting state's value if no
/// operation touched `k`, and nothing otherwise.
pub open spec fn expected_lookup<K, V>(m: Map<K, V>, ops: Seq<TableOp<K, V>>, k: K) -> Option<V>
    decreases ops.len(),
{
    if ops.len() == 0 {
        if m.contains_key(k) {
            Some(m[k])
        } else {
            None
        }
    } else {
        match ops.last() {
            TableOp::Insert { key, value } => if key == k {
                Some(value)
            } else {
                expected_lookup(m, ops.drop_last(), k)
            },
            TableOp::Remove { key } => if key == k {
                None
            } else {
                expected_lookup(m, ops.drop_last(), k)
            },
        }
    }
}

/// For every sequence of insert and remove operations, a lookup afterwards
/// returns the value from the most recent insertion of the key not
/// followed by its removal, and reports absence otherwise.  The operations'
/// own contracts make the abstract map evolve exactly as `apply_ops` says
/// (`insert` produces `old@.insert`, `remove` produces `old@.remove`, and
/// `get` reads the map exactly), so this law covers whole histories of
/// table operations.
pub proof fn lemma_history_lookup<K, V>(m: Map<K, V>, ops: Seq<TableOp<K, V>>, k: K)
    ensures
        apply_ops(m, ops).contains_key(k) == (expected_lookup(m, ops, k) is Some),
        apply_ops(m, ops).contains_key(k) ==> (Some(apply_ops(m, ops)[k]) == expected_lookup(
            m,
            ops,
            k,
        )),
    decreases ops.len(),
{
    if ops.len() > 0 {
        lemma_history_lookup(m, ops.drop_last(), k);
    }
}

} // verus!
