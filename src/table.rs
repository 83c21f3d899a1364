use vstd::prelude::*;
use crate::stats::{combine, lemma_single_wf, single, summary_wf, StationStats, Summary, MAX_RECORDS};

verus! {

/// Statistics per key, keys being byte strings.
pub type KeyedSummaries = Map<Seq<u8>, Summary>;

/// The union of two tables; a key present in both gets the combined statistics.
pub open spec fn merge_maps(a: KeyedSummaries, b: KeyedSummaries) -> KeyedSummaries {
    Map::new(
        |k: Seq<u8>| a.contains_key(k) || b.contains_key(k),
        |k: Seq<u8>|
            if a.contains_key(k) && b.contains_key(k) {
                combine(a[k], b[k])
            } else if a.contains_key(k) {
                a[k]
            } else {
                b[k]
            },
    )
}

/// The table after one more value for `key`.
pub open spec fn absorb_map(m: KeyedSummaries, key: Seq<u8>, v: int) -> KeyedSummaries {
    merge_maps(m, map![key => single(v)])
}

/// Two tables whose merge keeps every count within `MAX_RECORDS`.
pub open spec fn mergeable(a: KeyedSummaries, b: KeyedSummaries) -> bool {
    forall|k: Seq<u8>|
        a.contains_key(k) && b.contains_key(k) ==> #[trigger] a[k].count + b[k].count
            <= MAX_RECORDS
}

/// Every summary of the table is well formed.
pub open spec fn all_wf(m: KeyedSummaries) -> bool {
    forall|k: Seq<u8>| m.contains_key(k) ==> summary_wf(#[trigger] m[k])
}

/// rustc_hash's hasher builder, carried opaquely as the hasher of `FxHashMap`.
#[verifier::external_type_specification]
#[verifier::external_body]
pub struct ExFxBuildHasher(rustc_hash::FxBuildHasher);

/// Where each key's statistics stand in a table; lookups and inserts are
/// hashed with rustc_hash's Fx hasher.
pub struct KeyIndex {
    slots: rustc_hash::FxHashMap<Vec<u8>, usize>,
}

/// The key-to-slot mapping that a map of byte-string keys holds.
pub uninterp spec fn slot_map(m: rustc_hash::FxHashMap<Vec<u8>, usize>) -> Map<Seq<u8>, usize>;

/// The key-to-slot mapping that an index holds.
pub closed spec fn key_slots(index: KeyIndex) -> Map<Seq<u8>, usize> {
    slot_map(index.slots)
}

impl KeyIndex {
    /// Relies on `Default` for `FxHashMap` (std's `HashMap` hashed by
    /// rustc_hash's `FxBuildHasher`): a new map holds no key.
    #[verifier::external_body]
    fn new() -> (r: KeyIndex)
        ensures
            slot_map(r.slots).dom() == Set::<Seq<u8>>::empty(),
    {
        KeyIndex { slots: rustc_hash::FxHashMap::default() }
    }

    /// Relies on `HashMap::get` (with `Vec<u8>` borrowed as `[u8]`): the slot
    /// stored under an equal key, if any.
    #[verifier::external_body]
    fn get(&self, key: &[u8]) -> (r: Option<usize>)
        ensures
            r == (if slot_map(self.slots).contains_key(key@) {
                Some(slot_map(self.slots)[key@])
            } else {
                None
            }),
    {
        self.slots.get(key).copied()
    }

    /// Relies on `HashMap::insert`: afterwards the key maps to the new slot and
    /// every other key is unchanged.
    #[verifier::external_body]
    fn insert(&mut self, key: Vec<u8>, slot: usize)
        ensures
            slot_map(final(self).slots) == slot_map(old(self).slots).insert(key@, slot),
    {
        self.slots.insert(key, slot);
    }
}

/// A mapping from key to running statistics.
pub struct AggregationTable {
    index: KeyIndex,
    keys: Vec<Vec<u8>>,
    stats: Vec<StationStats>,
}

impl View for AggregationTable {
    type V = KeyedSummaries;

    closed spec fn view(&self) -> KeyedSummaries {
        Map::new(
            |k: Seq<u8>| key_slots(self.index).contains_key(k),
            |k: Seq<u8>| self.stats@[key_slots(self.index)[k] as int]@,
        )
    }
}

impl AggregationTable {
    /// The keys in the order in which they were first seen.
    pub closed spec fn key_seq(&self) -> Seq<Seq<u8>> {
        self.keys@.map_values(|k: Vec<u8>| k@)
    }

    /// The entries of the first `i` keys, in order of first appearance.
    pub closed spec fn prefix(&self, i: int) -> KeyedSummaries {
        self@.restrict(Set::new(|k: Seq<u8>| exists|j: int| 0 <= j < i && self.key_seq()[j] == k))
    }

    pub closed spec fn wf(&self) -> bool {
        let slots = key_slots(self.index);
        &&& self.keys.len() == self.stats.len()
        &&& forall|k: Seq<u8>|
            #[trigger] slots.contains_key(k) ==> slots[k] < self.keys.len() && self.keys@[slots[k] as int]@ == k
        &&& forall|i: int|
            0 <= i < self.keys.len() ==> slots.contains_key(#[trigger] self.keys@[i]@) && slots[self.keys@[i]@] == i
        &&& forall|i: int| 0 <= i < self.stats.len() ==> summary_wf(#[trigger] self.stats@[i]@)
    }

    proof fn lemma_view_facts(&self)
        requires
            self.wf(),
        ensures
            all_wf(self@),
            self.key_seq().len() == self.keys.len(),
            forall|i: int| 0 <= i < self.keys.len() ==> #[trigger] self.key_seq()[i] == self.keys@[i]@,
            forall|k: Seq<u8>| self@.contains_key(k) <==> self.key_seq().contains(k),
            forall|i: int, j: int|
                0 <= i < j < self.keys.len() ==> self.key_seq()[i] != self.key_seq()[j],
            forall|i: int|
                0 <= i < self.keys.len() ==> self@[#[trigger] self.key_seq()[i]] == self.stats@[i]@,
    {
        let slots = key_slots(self.index);
        assert forall|k: Seq<u8>| self@.contains_key(k) implies summary_wf(#[trigger] self@[k]) by {
            assert(summary_wf(self.stats@[slots[k] as int]@));
        }
        assert forall|k: Seq<u8>| self@.contains_key(k) <==> self.key_seq().contains(k) by {
            if self@.contains_key(k) {
                assert(self.key_seq()[slots[k] as int] == k);
            }
            if self.key_seq().contains(k) {
                let i = choose|i: int| 0 <= i < self.key_seq().len() && self.key_seq()[i] == k;
                assert(self.keys@[i]@ == k);
            }
        }
        assert forall|i: int, j: int| 0 <= i < j < self.keys.len() implies self.key_seq()[i]
            != self.key_seq()[j] by {
            assert(slots[self.keys@[i]@] == i);
            assert(slots[self.keys@[j]@] == j);
        }
    }

    /// A well-formed table's key sequence lists each key of its view once,
    /// and its statistics are well formed.
    pub proof fn lemma_key_seq(&self)
        requires
            self.wf(),
        ensures
            all_wf(self@),
            forall|k: Seq<u8>| self@.contains_key(k) <==> self.key_seq().contains(k),
            forall|i: int, j: int|
                0 <= i < j < self.key_seq().len() ==> self.key_seq()[i] != self.key_seq()[j],
            self@.dom().len() == self.key_seq().len(),
    {
        self.lemma_view_facts();
        assert forall|i: int, j: int|
            0 <= i < self.key_seq().len() && 0 <= j < self.key_seq().len() && i != j implies self.key_seq()[i]
            != self.key_seq()[j] by {
            if i > j {
                assert(self.key_seq()[j] != self.key_seq()[i]);
            }
        }
        self.key_seq().unique_seq_to_set();
        assert(self@.dom() =~= self.key_seq().to_set());
    }

    /// An empty table.
    pub fn new() -> (r: AggregationTable)
        ensures
            r.wf(),
            r@ == Map::<Seq<u8>, Summary>::empty(),
    {
        let r = AggregationTable { index: KeyIndex::new(), keys: Vec::new(), stats: Vec::new() };
        assert(r@ =~= Map::<Seq<u8>, Summary>::empty());
        r
    }

    /// Number of distinct keys.
    pub fn len(&self) -> (r: usize)
        requires
            self.wf(),
        ensures
            r == self@.dom().len(),
            r == self.key_seq().len(),
    {
        proof {
            self.lemma_key_seq();
        }
        self.keys.len()
    }

    /// Folds the statistics `s` of a group of values of `key` into the table.
    pub fn merge_entry(&mut self, key: &[u8], s: &StationStats)
        requires
            old(self).wf(),
            summary_wf(s@),
            mergeable(old(self)@, map![key@ => s@]),
        ensures
            final(self).wf(),
            final(self)@ == merge_maps(old(self)@, map![key@ => s@]),
    {
        let ghost one = map![key@ => s@];
        match self.index.get(key) {
            Some(slot) => {
                proof {
                    assert(one.contains_key(key@));
                    assert(old(self)@.contains_key(key@));
                    assert(summary_wf(self.stats@[slot as int]@));
                    assert(old(self)@[key@] == self.stats@[slot as int]@);
                    assert(old(self)@[key@].count + one[key@].count <= MAX_RECORDS);
                }
                let mut cur = self.stats[slot];
                cur.combine_with(s);
                self.stats.set(slot, cur);
                proof {
                    let slots = key_slots(self.index);
                    assert forall|i: int| 0 <= i < self.stats.len() implies summary_wf(
                        #[trigger] self.stats@[i]@,
                    ) by {
                        if i != slot {
                            assert(self.stats@[i] == old(self).stats@[i]);
                        }
                    }
                    assert forall|k: Seq<u8>| slots.contains_key(k) && k != key@ implies slots[k]
                        != slot by {
                    }
                    assert(self@ =~= merge_maps(old(self)@, one));
                }
            },
            None => {
                let slot = self.keys.len();
                let owned = vstd::slice::slice_to_vec(key);
                self.index.insert(vstd::slice::slice_to_vec(key), slot);
                self.keys.push(owned);
                self.stats.push(*s);
                proof {
                    let slots = key_slots(self.index);
                    let old_slots = key_slots(old(self).index);
                    assert forall|i: int| 0 <= i < self.keys.len() implies slots.contains_key(
                        #[trigger] self.keys@[i]@,
                    ) && slots[self.keys@[i]@] == i by {
                        if i < slot {
                            assert(self.keys@[i] == old(self).keys@[i]);
                            assert(old_slots.contains_key(old(self).keys@[i]@));
                        }
                    }
                    assert forall|k: Seq<u8>| #[trigger] slots.contains_key(k) implies slots[k]
                        < self.keys.len() && self.keys@[slots[k] as int]@ == k by {
                        if k != key@ {
                            assert(old_slots.contains_key(k));
                        }
                    }
                    assert forall|i: int| 0 <= i < self.stats.len() implies summary_wf(
                        #[trigger] self.stats@[i]@,
                    ) by {
                        if i < slot {
                            assert(self.stats@[i] == old(self).stats@[i]);
                        }
                    }
                    assert forall|k: Seq<u8>| #[trigger] old_slots.contains_key(k) implies old_slots[k]
                        < slot by {}
                    assert(self@ =~= merge_maps(old(self)@, one));
                }
            },
        }
    }

    /// The `i`-th key in order of first appearance.
    pub fn key_at(&self, i: usize) -> (r: &[u8])
        requires
            self.wf(),
            i < self.key_seq().len(),
        ensures
            r@ == self.key_seq()[i as int],
    {
        self.keys[i].as_slice()
    }

    /// The statistics of the `i`-th key in order of first appearance.
    pub fn stats_at(&self, i: usize) -> (r: StationStats)
        requires
            self.wf(),
            i < self.key_seq().len(),
        ensures
            r@ == self@[self.key_seq()[i as int]],
            summary_wf(r@),
    {
        proof {
            self.lemma_view_facts();
        }
        self.stats[i]
    }

    /// Folds one more value of `key` into the table.
    pub fn absorb(&mut self, key: &[u8], v: i64)
        requires
            old(self).wf(),
            -999 <= v <= 999,
            old(self)@.contains_key(key@) ==> old(self)@[key@].count < MAX_RECORDS,
        ensures
            final(self).wf(),
            final(self)@ == absorb_map(old(self)@, key@, v as int),
    {
        let one = StationStats::new(v);
        proof {
            lemma_single_wf(v as int);
            assert(map![key@ => one@].contains_key(key@));
        }
        self.merge_entry(key, &one);
    }

    /// Folds every entry of `other` into the table.
    pub fn merge_from(&mut self, other: &AggregationTable)
        requires
            old(self).wf(),
            other.wf(),
            mergeable(old(self)@, other@),
        ensures
            final(self).wf(),
            final(self)@ == merge_maps(old(self)@, other@),
    {
        proof {
            other.lemma_view_facts();
        }
        let n = other.keys.len();
        let mut i: usize = 0;
        while i < n
            invariant
                0 <= i <= n,
                n == other.keys.len(),
                other.wf(),
                self.wf(),
                mergeable(old(self)@, other@),
                self@ == merge_maps(old(self)@, other.prefix(i as int)),
                all_wf(other@),
                other.key_seq().len() == other.keys.len(),
                forall|j: int| 0 <= j < other.keys.len() ==> #[trigger] other.key_seq()[j] == other.keys@[j]@,
                forall|k: Seq<u8>| other@.contains_key(k) <==> other.key_seq().contains(k),
                forall|a: int, b: int|
                    0 <= a < b < other.keys.len() ==> other.key_seq()[a] != other.key_seq()[b],
                forall|j: int|
                    0 <= j < other.keys.len() ==> other@[#[trigger] other.key_seq()[j]] == other.stats@[j]@,
            decreases n - i,
        {
            let key = other.keys[i].as_slice();
            let s = other.stats[i];
            proof {
                let k = other.key_seq()[i as int];
                let p = other.prefix(i as int);
                let q = other.prefix(i + 1);
                assert(key@ == k);
                assert(other@.contains_key(k)) by {
                    assert(other.key_seq().contains(k));
                }
                assert(!p.contains_key(k)) by {
                    if p.contains_key(k) {
                        let j = choose|j: int| 0 <= j < i && other.key_seq()[j] == k;
                        assert(other.key_seq()[j] != other.key_seq()[i as int]);
                    }
                }
                assert(q =~= p.insert(k, s@)) by {
                    assert forall|x: Seq<u8>| q.contains_key(x) implies p.insert(k, s@).contains_key(x) by {
                        let j = choose|j: int| 0 <= j < i + 1 && other.key_seq()[j] == x;
                        if j < i {
                            assert(p.contains_key(x));
                        }
                    }
                    assert(q.contains_key(k));
                }
                if self@.contains_key(k) {
                    assert(old(self)@.contains_key(k));
                    assert(old(self)@[k].count + other@[k].count <= MAX_RECORDS);
                }
                assert(mergeable(self@, map![k => s@])) by {
                    assert forall|x: Seq<u8>| self@.contains_key(x) && map![k => s@].contains_key(x)
                        implies #[trigger] self@[x].count + map![k => s@][x].count <= MAX_RECORDS by {
                        assert(x == k);
                    }
                }
                lemma_merge_insert_fresh(old(self)@, p, k, s@);
            }
            self.merge_entry(key, &s);
            i = i + 1;
        }
        proof {
            assert(other.prefix(n as int) =~= other@) by {
                assert forall|x: Seq<u8>| other@.contains_key(x) implies other.prefix(n as int).contains_key(x) by {
                    assert(other.key_seq().contains(x));
                }
            }
        }
    }
}

impl AggregationTable {
    /// Folds every entry of `other` into the table if no key's count would
    /// exceed `MAX_RECORDS`; otherwise leaves the table as it is.
    pub fn try_merge_from(&mut self, other: &AggregationTable) -> (r: bool)
        requires
            old(self).wf(),
            other.wf(),
        ensures
            final(self).wf(),
            r == mergeable(old(self)@, other@),
            r ==> final(self)@ == merge_maps(old(self)@, other@),
            !r ==> final(self)@ == old(self)@,
    {
        proof {
            self.lemma_view_facts();
            other.lemma_view_facts();
        }
        let n = other.keys.len();
        let mut i: usize = 0;
        while i < n
            invariant
                0 <= i <= n,
                n == other.keys.len(),
                self.wf(),
                other.wf(),
                self == old(self),
                all_wf(self@),
                all_wf(other@),
                forall|j: int| 0 <= j < other.keys.len() ==> #[trigger] other.key_seq()[j] == other.keys@[j]@,
                forall|k: Seq<u8>| other@.contains_key(k) <==> other.key_seq().contains(k),
                forall|j: int|
                    0 <= j < other.keys.len() ==> other@[#[trigger] other.key_seq()[j]] == other.stats@[j]@,
                forall|j: int|
                    0 <= j < i && self@.contains_key(#[trigger] other.key_seq()[j]) ==> self@[other.key_seq()[j]].count
                        + other@[other.key_seq()[j]].count <= MAX_RECORDS,
            decreases n - i,
        {
            let key = other.keys[i].as_slice();
            let theirs = other.stats[i].count;
            proof {
                assert(other.key_seq()[i as int] == key@);
                assert(summary_wf(other.stats@[i as int]@));
            }
            match self.index.get(key) {
                Some(slot) => {
                    let mine = self.stats[slot].count;
                    proof {
                        assert(self@.contains_key(key@));
                        assert(summary_wf(self@[key@]));
                    }
                    if mine + theirs > MAX_RECORDS {
                        proof {
                            assert(other@.contains_key(key@)) by {
                                assert(other.key_seq().contains(key@));
                            }
                            assert(self@[key@].count + other@[key@].count > MAX_RECORDS);
                        }
                        return false;
                    }
                },
                None => {},
            }
            i = i + 1;
        }
        proof {
            assert forall|k: Seq<u8>| self@.contains_key(k) && other@.contains_key(k) implies #[trigger] self@[k].count
                + other@[k].count <= MAX_RECORDS by {
                assert(other.key_seq().contains(k));
                let j = choose|j: int| 0 <= j < other.key_seq().len() && other.key_seq()[j] == k;
            }
        }
        self.merge_from(other);
        true
    }
}

/// Merging a key that the second table lacks is a merge with that one entry.
proof fn lemma_merge_insert_fresh(a: KeyedSummaries, p: KeyedSummaries, k: Seq<u8>, s: Summary)
    requires
        !p.contains_key(k),
    ensures
        merge_maps(a, p.insert(k, s)) == merge_maps(merge_maps(a, p), map![k => s]),
{
    assert(merge_maps(a, p.insert(k, s)) =~= merge_maps(merge_maps(a, p), map![k => s]));
}

/// Merging with an empty table changes nothing, on either side.
pub proof fn lemma_merge_identity(a: KeyedSummaries)
    ensures
        merge_maps(a, Map::empty()) == a,
        merge_maps(Map::empty(), a) == a,
{
    assert(merge_maps(a, Map::empty()) =~= a);
    assert(merge_maps(Map::empty(), a) =~= a);
}

/// Merging two tables does not depend on their order.
pub proof fn lemma_merge_commutative(a: KeyedSummaries, b: KeyedSummaries)
    ensures
        merge_maps(a, b) == merge_maps(b, a),
{
    assert(merge_maps(a, b) =~= merge_maps(b, a));
}

/// Merging three tables does not depend on how the merges are grouped.
pub proof fn lemma_merge_associative(a: KeyedSummaries, b: KeyedSummaries, c: KeyedSummaries)
    ensures
        merge_maps(merge_maps(a, b), c) == merge_maps(a, merge_maps(b, c)),
{
    assert(merge_maps(merge_maps(a, b), c) =~= merge_maps(a, merge_maps(b, c)));
}

} // verus!
