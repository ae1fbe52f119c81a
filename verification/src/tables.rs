//! Small keyed tables held in memory: a map from outpoints to outputs, a
//! set of outpoints and a set of hashes.

use vstd::prelude::*;
use crate::types::{bytes_equal, OutPoint, Output, HASH_LENGTH};

verus! {

/// The keys of a list of entries, in order.
pub open spec fn entry_keys(entries: Seq<(OutPoint, Output)>) -> Seq<OutPoint> {
    entries.map_values(|e: (OutPoint, Output)| e.0)
}

/// The map that a list of entries stands for. Where a key occurs more than
/// once, one of its entries is taken.
pub open spec fn entries_map(entries: Seq<(OutPoint, Output)>) -> Map<OutPoint, Output> {
    Map::new(
        |k: OutPoint| exists|i: int| 0 <= i < entries.len() && (#[trigger] entries[i]).0 == k,
        |k: OutPoint| entries[entry_index(entries, k)].1,
    )
}

/// An index at which `key` is held.
pub open spec fn entry_index(entries: Seq<(OutPoint, Output)>, key: OutPoint) -> int {
    choose|i: int| 0 <= i < entries.len() && (#[trigger] entries[i]).0 == key
}

/// In a list without repeated keys, each entry is what the map holds at its key.
pub proof fn lemma_entries_map_at(entries: Seq<(OutPoint, Output)>, i: int)
    requires
        entry_keys(entries).no_duplicates(),
        0 <= i < entries.len(),
    ensures
        entries_map(entries).contains_key(entries[i].0),
        entries_map(entries)[entries[i].0] == entries[i].1,
{
    let k = entries[i].0;
    assert(0 <= i < entries.len() && entries[i].0 == k);
    let j = entry_index(entries, k);
    assert(0 <= j < entries.len() && entries[j].0 == k);
    assert(entry_keys(entries)[i] == entry_keys(entries)[j]);
    assert(i == j);
    assert(entries_map(entries).contains_key(k));
}

/// A map from outpoints to outputs.
pub struct OutputTable {
    entries: Vec<(OutPoint, Output)>,
}

impl View for OutputTable {
    type V = Map<OutPoint, Output>;

    closed spec fn view(&self) -> Map<OutPoint, Output> {
        entries_map(self.entries@)
    }
}

impl OutputTable {
    /// No key is held twice.
    pub closed spec fn wf(&self) -> bool {
        entry_keys(self.entries@).no_duplicates()
    }

    pub fn new() -> (r: OutputTable)
        ensures
            r.wf(),
            r@ == Map::<OutPoint, Output>::empty(),
    {
        let r = OutputTable { entries: Vec::new() };
        proof {
            assert(r@ =~= Map::<OutPoint, Output>::empty());
        }
        r
    }

    fn find(&self, key: &OutPoint) -> (r: Option<usize>)
        ensures
            match r {
                Some(i) => i < self.entries@.len() && self.entries@[i as int].0 == *key,
                None => forall|i: int| 0 <= i < self.entries@.len() ==> (
                #[trigger] self.entries@[i]).0 != *key,
            },
    {
        let mut i: usize = 0;
        while i < self.entries.len()
            invariant
                i <= self.entries.len(),
                forall|k: int| 0 <= k < i ==> (#[trigger] self.entries@[k]).0 != *key,
            decreases self.entries.len() - i,
        {
            if self.entries[i].0 == *key {
                return Some(i);
            }
            i += 1;
        }
        None
    }

    /// The output held at `key`, if any.
    pub fn get(&self, key: &OutPoint) -> (r: Option<Output>)
        requires
            self.wf(),
        ensures
            r == (if self@.contains_key(*key) {
                Some(self@[*key])
            } else {
                None
            }),
    {
        match self.find(key) {
            Some(i) => {
                proof {
                    lemma_entries_map_at(self.entries@, i as int);
                }
                Some(self.entries[i].1)
            },
            None => None,
        }
    }

    pub fn contains_key(&self, key: &OutPoint) -> (r: bool)
        requires
            self.wf(),
        ensures
            r == self@.contains_key(*key),
    {
        self.find(key).is_some()
    }

    /// Puts `value` at `key`, replacing what was there.
    pub fn insert(&mut self, key: OutPoint, value: Output)
        requires
            old(self).wf(),
        ensures
            final(self).wf(),
            final(self)@ == old(self)@.insert(key, value),
    {
        let ghost before = self.entries@;
        match self.find(&key) {
            Some(i) => {
                self.entries[i] = (key, value);
                proof {
                    let after = self.entries@;
                    assert(entry_keys(after) =~= entry_keys(before));
                    assert forall|k: OutPoint|
                        entries_map(after).contains_key(k) <==> #[trigger] entries_map(
                            before,
                        ).insert(key, value).contains_key(k) by {
                        if entries_map(after).contains_key(k) {
                            let j = choose|j: int|
                                0 <= j < after.len() && (#[trigger] after[j]).0 == k;
                            assert(before[j].0 == k || k == key);
                        }
                        if entries_map(before).insert(key, value).contains_key(k) {
                            if k == key {
                                assert(after[i as int].0 == k);
                            } else {
                                let j = choose|j: int|
                                    0 <= j < before.len() && (#[trigger] before[j]).0 == k;
                                assert(after[j].0 == k);
                            }
                        }
                    }
                    assert forall|k: OutPoint| #[trigger]
                        entries_map(after).contains_key(k) implies entries_map(after)[k]
                        == entries_map(before).insert(key, value)[k] by {
                        let j = choose|j: int|
                            0 <= j < after.len() && (#[trigger] after[j]).0 == k;
                        lemma_entries_map_at(after, j);
                        if k != key {
                            assert(j != i);
                            lemma_entries_map_at(before, j);
                        } else {
                            assert(entry_keys(after)[j] == entry_keys(after)[i as int]);
                        }
                    }
                    assert(entries_map(after) =~= entries_map(before).insert(key, value));
                }
            },
            None => {
                self.entries.push((key, value));
                proof {
                    let after = self.entries@;
                    assert(entry_keys(after) =~= entry_keys(before).push(key));
                    assert forall|a: int, b: int|
                        0 <= a < after.len() && 0 <= b < after.len() && a != b implies entry_keys(
                        after,
                    )[a] != entry_keys(after)[b] by {
                        if a < before.len() && b < before.len() {
                            assert(entry_keys(before)[a] != entry_keys(before)[b]);
                        } else if a < before.len() {
                            assert(before[a].0 != key);
                        } else {
                            assert(before[b].0 != key);
                        }
                    }
                    assert forall|k: OutPoint|
                        entries_map(after).contains_key(k) <==> #[trigger] entries_map(
                            before,
                        ).insert(key, value).contains_key(k) by {
                        if entries_map(after).contains_key(k) {
                            let j = choose|j: int|
                                0 <= j < after.len() && (#[trigger] after[j]).0 == k;
                            if j < before.len() {
                                assert(before[j].0 == k);
                            }
                        }
                        if entries_map(before).insert(key, value).contains_key(k) {
                            if k == key {
                                assert(after[before.len() as int].0 == k);
                            } else {
                                let j = choose|j: int|
                                    0 <= j < before.len() && (#[trigger] before[j]).0 == k;
                                assert(after[j].0 == k);
                            }
                        }
                    }
                    assert forall|k: OutPoint| #[trigger]
                        entries_map(after).contains_key(k) implies entries_map(after)[k]
                        == entries_map(before).insert(key, value)[k] by {
                        let j = choose|j: int|
                            0 <= j < after.len() && (#[trigger] after[j]).0 == k;
                        lemma_entries_map_at(after, j);
                        if j < before.len() {
                            assert(before[j].0 != key);
                            lemma_entries_map_at(before, j);
                        }
                    }
                    assert(entries_map(after) =~= entries_map(before).insert(key, value));
                }
            },
        }
    }

    /// Removes what is held at `key`, if anything.
    pub fn remove(&mut self, key: &OutPoint)
        requires
            old(self).wf(),
        ensures
            final(self).wf(),
            final(self)@ == old(self)@.remove(*key),
    {
        let ghost before = self.entries@;
        match self.find(key) {
            Some(i) => {
                self.entries.remove(i);
                proof {
                    let after = self.entries@;
                    assert(after =~= before.remove(i as int));
                    assert forall|a: int| 0 <= a < after.len() implies #[trigger] after[a] == before[if a
                        < i {
                        a
                    } else {
                        a + 1
                    }] by {}
                    assert forall|a: int, b: int|
                        0 <= a < after.len() && 0 <= b < after.len() && a != b implies entry_keys(
                        after,
                    )[a] != entry_keys(after)[b] by {
                        let a0 = if a < i { a } else { a + 1 };
                        let b0 = if b < i { b } else { b + 1 };
                        assert(entry_keys(before)[a0] != entry_keys(before)[b0]);
                    }
                    assert forall|a: int| 0 <= a < after.len() implies (#[trigger] after[a]).0
                        != *key by {
                        let a0 = if a < i { a } else { a + 1 };
                        assert(entry_keys(before)[a0] != entry_keys(before)[i as int]);
                    }
                    assert forall|k: OutPoint|
                        entries_map(after).contains_key(k) <==> #[trigger] entries_map(
                            before,
                        ).remove(*key).contains_key(k) by {
                        if entries_map(after).contains_key(k) {
                            let j = choose|j: int|
                                0 <= j < after.len() && (#[trigger] after[j]).0 == k;
                            let j0 = if j < i { j } else { j + 1 };
                            assert(before[j0].0 == k);
                        }
                        if entries_map(before).remove(*key).contains_key(k) {
                            let j = choose|j: int|
                                0 <= j < before.len() && (#[trigger] before[j]).0 == k;
                            let j1 = if j < i { j } else { j - 1 };
                            assert(after[j1].0 == k);
                        }
                    }
                    assert forall|k: OutPoint| #[trigger]
                        entries_map(after).contains_key(k) implies entries_map(after)[k]
                        == entries_map(before).remove(*key)[k] by {
                        let j = choose|j: int|
                            0 <= j < after.len() && (#[trigger] after[j]).0 == k;
                        let j0 = if j < i { j } else { j + 1 };
                        lemma_entries_map_at(after, j);
                        lemma_entries_map_at(before, j0);
                    }
                    assert(entries_map(after) =~= entries_map(before).remove(*key));
                }
            },
            None => {
                proof {
                    assert(entries_map(before) =~= entries_map(before).remove(*key));
                }
            },
        }
    }

    pub fn is_empty(&self) -> (r: bool)
        ensures
            r == (self@ == Map::<OutPoint, Output>::empty()),
    {
        let r = self.entries.len() == 0;
        proof {
            if r {
                assert(self@ =~= Map::<OutPoint, Output>::empty());
            } else {
                assert(self.entries@[0].0 == self.entries@[0].0);
                assert(self@.contains_key(self.entries@[0].0));
            }
        }
        r
    }

    /// The entries of the table: each key once, with the output held at it.
    pub fn entries(&self) -> (r: Vec<(OutPoint, Output)>)
        requires
            self.wf(),
        ensures
            entry_keys(r@).no_duplicates(),
            entries_map(r@) == self@,
    {
        let mut copy: Vec<(OutPoint, Output)> = Vec::new();
        let mut i: usize = 0;
        while i < self.entries.len()
            invariant
                i <= self.entries.len(),
                copy@ == self.entries@.take(i as int),
            decreases self.entries.len() - i,
        {
            copy.push(self.entries[i]);
            proof {
                assert(self.entries@.take(i + 1) =~= self.entries@.take(i as int).push(
                    self.entries@[i as int],
                ));
            }
            i += 1;
        }
        proof {
            assert(self.entries@.take(i as int) =~= self.entries@);
        }
        copy
    }
}

/// Whether `outpoint` is an output of a transaction numbered below `bound`.
pub open spec fn regular_below(outpoint: OutPoint, bound: u64) -> bool {
    match outpoint {
        OutPoint::Regular { transaction_number, .. } => transaction_number < bound,
        _ => false,
    }
}

/// The members of `set` that are outputs of transactions numbered below `bound`.
pub open spec fn below(set: Set<OutPoint>, bound: u64) -> Set<OutPoint> {
    Set::new(|p: OutPoint| set.contains(p) && regular_below(p, bound))
}

/// A set of outpoints.
pub struct OutPointSet {
    items: Vec<OutPoint>,
}

impl View for OutPointSet {
    type V = Set<OutPoint>;

    closed spec fn view(&self) -> Set<OutPoint> {
        self.items@.to_set()
    }
}

impl OutPointSet {
    /// No outpoint is held twice.
    pub closed spec fn wf(&self) -> bool {
        self.items@.no_duplicates()
    }

    pub fn new() -> (r: OutPointSet)
        ensures
            r.wf(),
            r@ == Set::<OutPoint>::empty(),
    {
        let r = OutPointSet { items: Vec::new() };
        proof {
            assert(r@ =~= Set::<OutPoint>::empty());
        }
        r
    }

    /// The set of the outpoints of a list that holds none twice.
    pub fn from_distinct(items: Vec<OutPoint>) -> (r: OutPointSet)
        requires
            items@.no_duplicates(),
        ensures
            r.wf(),
            r@ == items@.to_set(),
            r.spec_len() == items@.len(),
    {
        OutPointSet { items }
    }

    pub proof fn lemma_finite(&self)
        requires
            self.wf(),
        ensures
            self@.finite(),
            self@.len() == self.spec_len(),
    {
        self.items@.unique_seq_to_set();
    }

    /// The number of outpoints held.
    pub closed spec fn spec_len(&self) -> nat {
        self.items@.len()
    }

    fn find(&self, item: &OutPoint) -> (r: Option<usize>)
        ensures
            match r {
                Some(i) => i < self.items@.len() && self.items@[i as int] == *item,
                None => !self.items@.contains(*item),
            },
    {
        let mut i: usize = 0;
        while i < self.items.len()
            invariant
                i <= self.items.len(),
                forall|k: int| 0 <= k < i ==> self.items@[k] != *item,
            decreases self.items.len() - i,
        {
            if self.items[i] == *item {
                return Some(i);
            }
            i += 1;
        }
        None
    }

    pub fn contains(&self, item: &OutPoint) -> (r: bool)
        ensures
            r == self@.contains(*item),
    {
        let found = self.find(item);
        proof {
            if found is Some {
                assert(self.items@.contains(*item));
            }
        }
        found.is_some()
    }

    pub fn insert(&mut self, item: OutPoint)
        requires
            old(self).wf(),
        ensures
            final(self).wf(),
            final(self)@ == old(self)@.insert(item),
    {
        let ghost before = self.items@;
        match self.find(&item) {
            Some(i) => {
                proof {
                    assert(before.contains(item));
                    assert(before.to_set() =~= before.to_set().insert(item));
                }
            },
            None => {
                self.items.push(item);
                proof {
                    let after = self.items@;
                    assert forall|k: OutPoint|
                        after.contains(k) <==> #[trigger] before.to_set().insert(item).contains(
                            k,
                        ) by {
                        if after.contains(k) {
                            let j = choose|j: int| 0 <= j < after.len() && after[j] == k;
                            if j < before.len() {
                                assert(before[j] == k);
                            }
                        }
                        if before.to_set().insert(item).contains(k) {
                            if k == item {
                                assert(after[before.len() as int] == k);
                            } else {
                                let j = choose|j: int| 0 <= j < before.len() && before[j] == k;
                                assert(after[j] == k);
                            }
                        }
                    }
                    assert(after.to_set() =~= before.to_set().insert(item));
                }
            },
        }
    }

    pub fn remove(&mut self, item: &OutPoint)
        requires
            old(self).wf(),
        ensures
            final(self).wf(),
            final(self)@ == old(self)@.remove(*item),
    {
        let ghost before = self.items@;
        match self.find(item) {
            Some(i) => {
                self.items.remove(i);
                proof {
                    let after = self.items@;
                    assert(after =~= before.remove(i as int));
                    assert forall|k: OutPoint|
                        after.contains(k) <==> #[trigger] before.to_set().remove(*item).contains(
                            k,
                        ) by {
                        if after.contains(k) {
                            let j = choose|j: int| 0 <= j < after.len() && after[j] == k;
                            let j0 = if j < i { j } else { j + 1 };
                            assert(before[j0] == k);
                        }
                        if before.to_set().remove(*item).contains(k) {
                            let j = choose|j: int| 0 <= j < before.len() && before[j] == k;
                            let j1 = if j < i { j } else { j - 1 };
                            assert(after[j1] == k);
                        }
                    }
                    assert(after.to_set() =~= before.to_set().remove(*item));
                }
            },
            None => {
                proof {
                    assert(before.to_set() =~= before.to_set().remove(*item));
                }
            },
        }
    }

    /// Keeps the outputs of transactions numbered below `bound`, and no others.
    pub fn retain_regular_below(&mut self, bound: u64)
        requires
            old(self).wf(),
        ensures
            final(self).wf(),
            final(self)@ == below(old(self)@, bound),
    {
        let ghost before = self.items@;
        let mut kept: Vec<OutPoint> = Vec::new();
        let mut i: usize = 0;
        while i < self.items.len()
            invariant
                i <= self.items.len(),
                self.items@ == before,
                before.no_duplicates(),
                kept@.no_duplicates(),
                forall|p: OutPoint|
                    kept@.contains(p) <==> (exists|j: int|
                        0 <= j < i && before[j] == p && regular_below(p, bound)),
            decreases self.items.len() - i,
        {
            let item = self.items[i];
            let keep = match item {
                OutPoint::Regular { transaction_number, .. } => transaction_number < bound,
                _ => false,
            };
            if keep {
                let ghost kept_before = kept@;
                proof {
                    if kept_before.contains(item) {
                        let j = choose|j: int|
                            0 <= j < i && before[j] == item && regular_below(item, bound);
                        assert(before[j] == before[i as int]);
                    }
                }
                kept.push(item);
                proof {
                    assert forall|p: OutPoint|
                        kept@.contains(p) <==> (exists|j: int|
                            0 <= j < i + 1 && before[j] == p && regular_below(p, bound)) by {
                        if kept@.contains(p) {
                            let a = choose|a: int| 0 <= a < kept@.len() && kept@[a] == p;
                            if a < kept_before.len() {
                                assert(kept_before[a] == p);
                                assert(kept_before.contains(p));
                                let j = choose|j: int|
                                    0 <= j < i && before[j] == p && regular_below(p, bound);
                                assert(0 <= j < i + 1 && before[j] == p && regular_below(p, bound));
                            } else {
                                assert(before[i as int] == p);
                            }
                        }
                        if exists|j: int| 0 <= j < i + 1 && before[j] == p && regular_below(p, bound) {
                            let j = choose|j: int|
                                0 <= j < i + 1 && before[j] == p && regular_below(p, bound);
                            if j < i {
                                assert(kept_before.contains(p));
                                let a = choose|a: int|
                                    0 <= a < kept_before.len() && kept_before[a] == p;
                                assert(kept@[a] == p);
                            } else {
                                assert(kept@[kept_before.len() as int] == p);
                            }
                        }
                    }
                }
            } else {
                proof {
                    assert forall|p: OutPoint|
                        kept@.contains(p) <==> (exists|j: int|
                            0 <= j < i + 1 && before[j] == p && regular_below(p, bound)) by {
                        if exists|j: int| 0 <= j < i + 1 && before[j] == p && regular_below(p, bound) {
                            let j = choose|j: int|
                                0 <= j < i + 1 && before[j] == p && regular_below(p, bound);
                            assert(j < i);
                        }
                    }
                }
            }
            i += 1;
        }
        self.items = kept;
        proof {
            assert forall|p: OutPoint|
                self.items@.to_set().contains(p) <==> #[trigger] below(before.to_set(), bound).contains(
                    p,
                ) by {
                if below(before.to_set(), bound).contains(p) {
                    let j = choose|j: int| 0 <= j < before.len() && before[j] == p;
                    assert(0 <= j < i && before[j] == p && regular_below(p, bound));
                }
                if self.items@.contains(p) {
                    let j = choose|j: int| 0 <= j < i && before[j] == p && regular_below(p, bound);
                    assert(before.contains(p));
                }
            }
            assert(self.items@.to_set() =~= below(before.to_set(), bound));
        }
    }

    pub fn clear(&mut self)
        ensures
            final(self).wf(),
            final(self)@ == Set::<OutPoint>::empty(),
    {
        self.items.clear();
        proof {
            assert(self.items@.to_set() =~= Set::<OutPoint>::empty());
        }
    }

    pub fn is_empty(&self) -> (r: bool)
        ensures
            r == (self@ == Set::<OutPoint>::empty()),
    {
        let r = self.items.len() == 0;
        proof {
            if r {
                assert(self@ =~= Set::<OutPoint>::empty());
            } else {
                assert(self.items@.contains(self.items@[0]));
                assert(self@.contains(self.items@[0]));
            }
        }
        r
    }

    pub fn len(&self) -> (r: usize)
        ensures
            r == self.spec_len(),
    {
        self.items.len()
    }

    /// The outpoints held, each once.
    pub fn to_vec(&self) -> (r: Vec<OutPoint>)
        requires
            self.wf(),
        ensures
            r@.no_duplicates(),
            r@.to_set() == self@,
            r@.len() == self.spec_len(),
    {
        let mut copy: Vec<OutPoint> = Vec::new();
        let mut i: usize = 0;
        while i < self.items.len()
            invariant
                i <= self.items.len(),
                copy@ == self.items@.take(i as int),
            decreases self.items.len() - i,
        {
            copy.push(self.items[i]);
            proof {
                assert(self.items@.take(i + 1) =~= self.items@.take(i as int).push(
                    self.items@[i as int],
                ));
            }
            i += 1;
        }
        proof {
            assert(self.items@.take(i as int) =~= self.items@);
        }
        copy
    }
}

/// A set of 32-byte hashes.
pub struct HashSet32 {
    items: Vec<[u8; HASH_LENGTH]>,
}

impl View for HashSet32 {
    type V = Set<Seq<u8>>;

    closed spec fn view(&self) -> Set<Seq<u8>> {
        Set::new(|h: Seq<u8>| exists|i: int| 0 <= i < self.items@.len() && #[trigger] self.items@[i]@ == h)
    }
}

impl HashSet32 {
    pub fn new() -> (r: HashSet32)
        ensures
            r@ == Set::<Seq<u8>>::empty(),
    {
        let r = HashSet32 { items: Vec::new() };
        proof {
            assert(r@ =~= Set::<Seq<u8>>::empty());
        }
        r
    }

    pub fn contains(&self, hash: &[u8; HASH_LENGTH]) -> (r: bool)
        ensures
            r == self@.contains(hash@),
    {
        let mut i: usize = 0;
        while i < self.items.len()
            invariant
                i <= self.items.len(),
                forall|k: int| 0 <= k < i ==> #[trigger] self.items@[k]@ != hash@,
            decreases self.items.len() - i,
        {
            if bytes_equal(&self.items[i], hash) {
                return true;
            }
            i += 1;
        }
        false
    }

    pub fn insert(&mut self, hash: [u8; HASH_LENGTH])
        ensures
            final(self)@ == old(self)@.insert(hash@),
    {
        if !self.contains(&hash) {
            let ghost before = self.items@;
            self.items.push(hash);
            proof {
                let after = self.items@;
                assert forall|h: Seq<u8>|
                    self@.contains(h) <==> #[trigger] old(self)@.insert(hash@).contains(h) by {
                    if self@.contains(h) {
                        let j = choose|j: int| 0 <= j < after.len() && #[trigger] after[j]@ == h;
                        if j < before.len() {
                            assert(before[j]@ == h);
                        }
                    }
                    if old(self)@.insert(hash@).contains(h) {
                        if h == hash@ {
                            assert(after[before.len() as int]@ == h);
                        } else {
                            let j = choose|j: int|
                                0 <= j < before.len() && #[trigger] before[j]@ == h;
                            assert(after[j]@ == h);
                        }
                    }
                }
                assert(self@ =~= old(self)@.insert(hash@));
            }
        } else {
            proof {
                assert(self@ =~= old(self)@.insert(hash@));
            }
        }
    }
}

} // verus!
