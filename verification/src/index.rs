//! The index: for every live key, the extent of its latest put record.
//!
//! A hash map from key to extent answers the point lookups. Beside it the
//! entries stand in the order of their records in the log, each key once, so
//! that a rewrite of the log that walks them copies the live records by
//! ascending offset.

use crate::extent::Extent;
use vstd::hash_map::StringHashMap;
use vstd::prelude::*;

verus! {

/// One entry of the index as contracts see it.
pub struct Slot {
    pub key: Seq<char>,
    pub extent: Extent,
}

/// Whether some entry has the key.
pub open spec fn holds(slots: Seq<Slot>, key: Seq<char>) -> bool {
    exists|i: int| 0 <= i < slots.len() && #[trigger] slots[i].key == key
}

/// The place of the key among the entries, where it has one.
pub open spec fn slot_of(slots: Seq<Slot>, key: Seq<char>) -> int {
    choose|i: int| 0 <= i < slots.len() && #[trigger] slots[i].key == key
}

/// The extent that the key is mapped to, if any.
pub open spec fn lookup(slots: Seq<Slot>, key: Seq<char>) -> Option<Extent> {
    if holds(slots, key) {
        Some(slots[slot_of(slots, key)].extent)
    } else {
        None
    }
}

/// The entries without the one of the key.
pub open spec fn without(slots: Seq<Slot>, key: Seq<char>) -> Seq<Slot> {
    if holds(slots, key) {
        slots.remove(slot_of(slots, key))
    } else {
        slots
    }
}

/// The entries with the key mapped to the extent of a record that was just
/// appended: an earlier entry of the key goes, the new one comes last.
pub open spec fn with(slots: Seq<Slot>, key: Seq<char>, extent: Extent) -> Seq<Slot> {
    without(slots, key).push(Slot { key, extent })
}

/// No key occurs twice.
pub open spec fn distinct_keys(slots: Seq<Slot>) -> bool {
    forall|i: int, j: int|
        0 <= i < j < slots.len() ==> (#[trigger] slots[i]).key != (#[trigger] slots[j]).key
}

/// Every extent ends before the next one begins.
pub open spec fn ascending(slots: Seq<Slot>) -> bool {
    forall|i: int, j: int|
        0 <= i < j < slots.len() ==> (#[trigger] slots[i]).extent.end() <= (
        #[trigger] slots[j]).extent.offset
}

/// The offset behind the last extent.
pub open spec fn frontier(slots: Seq<Slot>) -> int {
    if slots.len() == 0 {
        0
    } else {
        slots.last().extent.end()
    }
}

/// The invariant of the index.
pub open spec fn well_formed(slots: Seq<Slot>) -> bool {
    distinct_keys(slots) && ascending(slots)
}

/// The entries as a map from key to extent.
pub open spec fn as_map(slots: Seq<Slot>) -> Map<Seq<char>, Extent> {
    Map::new(|key: Seq<char>| holds(slots, key), |key: Seq<char>| slots[slot_of(slots, key)].extent)
}

/// The extents of the entries, in their order.
pub open spec fn extents(slots: Seq<Slot>) -> Seq<Extent> {
    Seq::new(slots.len(), |i: int| slots[i].extent)
}

/// The sum of the lengths of the extents.
pub open spec fn total_length(slots: Seq<Slot>) -> nat
    decreases slots.len(),
{
    if slots.len() == 0 {
        0
    } else {
        total_length(slots.drop_last()) + slots.last().extent.length as nat
    }
}

/// The entries after a rewrite that copies the records in their order, one
/// directly behind the other from offset 0: the keys and lengths stay, each
/// offset is the sum of the lengths before it.
pub open spec fn packed(slots: Seq<Slot>) -> Seq<Slot> {
    Seq::new(
        slots.len(),
        |i: int|
            Slot {
                key: slots[i].key,
                extent: Extent {
                    offset: total_length(slots.take(i)) as u64,
                    length: slots[i].extent.length,
                },
            },
    )
}

/// With distinct keys, an entry is the one that its key is looked up to.
pub proof fn lemma_slot_found(slots: Seq<Slot>, i: int)
    requires
        distinct_keys(slots),
        0 <= i < slots.len(),
    ensures
        holds(slots, slots[i].key),
        slot_of(slots, slots[i].key) == i,
        lookup(slots, slots[i].key) == Some(slots[i].extent),
{
    let j = slot_of(slots, slots[i].key);
    assert(slots[j].key == slots[i].key);
    if j < i {
        assert(slots[j].key != slots[i].key);
    }
    if i < j {
        assert(slots[i].key != slots[j].key);
    }
}

/// The frontier is behind every extent.
pub proof fn lemma_frontier(slots: Seq<Slot>)
    requires
        ascending(slots),
    ensures
        forall|i: int|
            0 <= i < slots.len() ==> (#[trigger] slots[i]).extent.end() <= frontier(slots),
        0 <= frontier(slots),
{
    assert forall|i: int| 0 <= i < slots.len() implies (#[trigger] slots[i]).extent.end()
        <= frontier(slots) by {
        if i < slots.len() - 1 {
            assert(slots[i].extent.end() <= slots[slots.len() - 1].extent.offset);
        }
    }
}

/// The place in `slots` of the entry that stands at place `i` once the entry
/// at place `p` is gone.
pub open spec fn place_before_removal(p: int, i: int) -> int {
    if i < p {
        i
    } else {
        i + 1
    }
}

/// Removing the entry of a live key keeps the invariant and leaves the other
/// entries in their order.
proof fn lemma_without_live(slots: Seq<Slot>, key: Seq<char>)
    requires
        well_formed(slots),
        holds(slots, key),
    ensures
        well_formed(without(slots, key)),
        without(slots, key).len() == slots.len() - 1,
        forall|i: int|
            0 <= i < slots.len() - 1 ==> #[trigger] without(slots, key)[i]
                == slots[place_before_removal(slot_of(slots, key), i)],
        !holds(without(slots, key), key),
{
    let p = slot_of(slots, key);
    let rest = slots.remove(p);
    assert forall|i: int| 0 <= i < rest.len() implies #[trigger] rest[i]
        == slots[place_before_removal(p, i)] by {}
    assert forall|i: int, j: int| 0 <= i < j < rest.len() implies (#[trigger] rest[i]).key != (
    #[trigger] rest[j]).key && rest[i].extent.end() <= rest[j].extent.offset by {
        let a = place_before_removal(p, i);
        let b = place_before_removal(p, j);
        assert(rest[i] == slots[a]);
        assert(rest[j] == slots[b]);
        assert(slots[a].key != slots[b].key);
        assert(slots[a].extent.end() <= slots[b].extent.offset);
    }
    if holds(rest, key) {
        let i = slot_of(rest, key);
        let a = place_before_removal(p, i);
        assert(rest[i] == slots[a]);
        lemma_slot_found(slots, a);
    }
}

/// Removing a key changes the lookup of no other key.
proof fn lemma_without_other(slots: Seq<Slot>, key: Seq<char>, other: Seq<char>)
    requires
        well_formed(slots),
        other != key,
    ensures
        lookup(without(slots, key), other) == lookup(slots, other),
{
    if holds(slots, key) {
        let p = slot_of(slots, key);
        let rest = without(slots, key);
        lemma_without_live(slots, key);
        if holds(slots, other) {
            let a = slot_of(slots, other);
            let i = if a < p {
                a
            } else {
                a - 1
            };
            assert(rest[i] == slots[place_before_removal(p, i)]);
            lemma_slot_found(slots, a);
            lemma_slot_found(rest, i);
        } else if holds(rest, other) {
            let i = slot_of(rest, other);
            assert(rest[i] == slots[place_before_removal(p, i)]);
            assert(slots[place_before_removal(p, i)].key == other);
        }
    }
}

/// Removing a key keeps the invariant, drops that key and nothing else, and
/// does not move the frontier forward.
pub proof fn lemma_without(slots: Seq<Slot>, key: Seq<char>)
    requires
        well_formed(slots),
    ensures
        well_formed(without(slots, key)),
        !holds(without(slots, key), key),
        frontier(without(slots, key)) <= frontier(slots),
        without(slots, key).len() == if holds(slots, key) {
            slots.len() - 1
        } else {
            slots.len() as int
        },
        forall|other: Seq<char>|
            other != key ==> lookup(without(slots, key), other) == lookup(slots, other),
        forall|i: int|
            0 <= i < without(slots, key).len() ==> slots.contains(
                #[trigger] without(slots, key)[i],
            ),
{
    let rest = without(slots, key);
    assert forall|other: Seq<char>| other != key implies lookup(rest, other) == lookup(
        slots,
        other,
    ) by {
        lemma_without_other(slots, key, other);
    }
    if holds(slots, key) {
        let p = slot_of(slots, key);
        lemma_without_live(slots, key);
        lemma_frontier(slots);
        assert forall|i: int| 0 <= i < rest.len() implies slots.contains(#[trigger] rest[i]) by {
            assert(rest[i] == slots[place_before_removal(p, i)]);
        }
        if rest.len() > 0 {
            let last = rest.len() - 1;
            assert(rest[last] == slots[place_before_removal(p, last)]);
        }
    }
}

/// Mapping a key to an extent behind the frontier keeps the invariant, maps
/// that key and changes no other.
pub proof fn lemma_with(slots: Seq<Slot>, key: Seq<char>, extent: Extent)
    requires
        well_formed(slots),
        frontier(slots) <= extent.offset,
    ensures
        well_formed(with(slots, key, extent)),
        lookup(with(slots, key, extent), key) == Some(extent),
        frontier(with(slots, key, extent)) == extent.end(),
        with(slots, key, extent).len() == if holds(slots, key) {
            slots.len()
        } else {
            slots.len() + 1
        },
        forall|other: Seq<char>|
            other != key ==> lookup(with(slots, key, extent), other) == lookup(slots, other),
        with(slots, key, extent).last() == (Slot { key, extent }),
        forall|i: int|
            0 <= i < with(slots, key, extent).len() - 1 ==> slots.contains(
                #[trigger] with(slots, key, extent)[i],
            ),
{
    let rest = without(slots, key);
    let next = with(slots, key, extent);
    let last = rest.len() as int;
    lemma_without(slots, key);
    assert forall|i: int| 0 <= i < next.len() - 1 implies slots.contains(#[trigger] next[i]) by {
        assert(next[i] == rest[i]);
    }
    lemma_frontier(rest);
    assert(next[last] == Slot { key, extent });
    assert forall|i: int, j: int| 0 <= i < j < next.len() implies (#[trigger] next[i]).key != (
    #[trigger] next[j]).key && next[i].extent.end() <= next[j].extent.offset by {
        assert(next[i] == rest[i]);
        if j < last {
            assert(next[j] == rest[j]);
        } else {
            assert(rest[i].extent.end() <= frontier(rest));
        }
    }
    lemma_slot_found(next, last);
    assert forall|other: Seq<char>| other != key implies lookup(next, other) == lookup(
        slots,
        other,
    ) by {
        if holds(rest, other) {
            let i = slot_of(rest, other);
            assert(next[i] == rest[i]);
            lemma_slot_found(next, i);
        } else if holds(next, other) {
            let i = slot_of(next, other);
            assert(next[i] == rest[i]);
        }
    }
}

/// The lengths before a place sum to no more than the lengths before a later
/// place.
pub proof fn lemma_total_length_grows(slots: Seq<Slot>, i: int, j: int)
    requires
        0 <= i <= j <= slots.len(),
    ensures
        total_length(slots.take(i)) <= total_length(slots.take(j)),
        j < slots.len() ==> total_length(slots.take(j + 1)) == total_length(slots.take(j))
            + slots[j].extent.length,
        total_length(slots.take(slots.len() as int)) == total_length(slots),
    decreases j - i,
{
    if j < slots.len() {
        assert(slots.take(j + 1).drop_last() =~= slots.take(j));
    }
    assert(slots.take(slots.len() as int) =~= slots);
    if i < j {
        lemma_total_length_grows(slots, i, j - 1);
        assert(slots.take(j).drop_last() =~= slots.take(j - 1));
    }
}

/// Extents that follow one another reach at least as far as their lengths sum.
pub proof fn lemma_total_length_bound(slots: Seq<Slot>)
    requires
        ascending(slots),
    ensures
        total_length(slots) <= frontier(slots),
    decreases slots.len(),
{
    if slots.len() > 0 {
        let front = slots.drop_last();
        assert forall|i: int, j: int| 0 <= i < j < front.len() implies (
        #[trigger] front[i]).extent.end() <= (#[trigger] front[j]).extent.offset by {
            assert(front[i] == slots[i] && front[j] == slots[j]);
        }
        lemma_total_length_bound(front);
        if front.len() > 0 {
            assert(front.last() == slots[front.len() - 1]);
            assert(slots[front.len() - 1].extent.end() <= slots[slots.len() - 1].extent.offset);
        }
    }
}

/// Packing keeps the keys and the lengths, keeps the invariant, and lays the
/// extents out without gaps from offset 0.
pub proof fn lemma_packed(slots: Seq<Slot>)
    requires
        well_formed(slots),
        frontier(slots) <= u64::MAX,
    ensures
        well_formed(packed(slots)),
        frontier(packed(slots)) == total_length(slots),
        forall|i: int|
            0 <= i < slots.len() ==> (#[trigger] packed(slots)[i]).extent.offset == total_length(
                slots.take(i),
            ),
        forall|key: Seq<char>| holds(packed(slots), key) == holds(slots, key),
        forall|key: Seq<char>|
            holds(slots, key) ==> slot_of(packed(slots), key) == slot_of(slots, key),
{
    let next = packed(slots);
    lemma_total_length_bound(slots);
    assert forall|i: int| 0 <= i < slots.len() implies (#[trigger] next[i]).extent.offset
        == total_length(slots.take(i)) && next[i].extent.end() == total_length(
        slots.take(i + 1),
    ) by {
        lemma_total_length_grows(slots, i, i);
        lemma_total_length_grows(slots, i + 1, slots.len() as int);
    }
    assert forall|i: int, j: int| 0 <= i < j < next.len() implies (#[trigger] next[i]).key != (
    #[trigger] next[j]).key && next[i].extent.end() <= next[j].extent.offset by {
        assert(slots[i].key != slots[j].key);
        lemma_total_length_grows(slots, i + 1, j);
    }
    if slots.len() > 0 {
        lemma_total_length_grows(slots, slots.len() - 1, slots.len() - 1);
    }
    assert forall|key: Seq<char>| holds(next, key) == holds(slots, key) by {
        if holds(next, key) {
            let i = slot_of(next, key);
            assert(slots[i].key == key);
        }
        if holds(slots, key) {
            let i = slot_of(slots, key);
            assert(next[i].key == key);
        }
    }
    assert forall|key: Seq<char>| holds(slots, key) implies slot_of(next, key) == slot_of(
        slots,
        key,
    ) by {
        let i = slot_of(slots, key);
        assert(next[i].key == key);
        lemma_slot_found(next, i);
    }
}

/// Mapping a key to an extent behind the frontier is an insert into the map.
pub proof fn lemma_as_map_with(slots: Seq<Slot>, key: Seq<char>, extent: Extent)
    requires
        well_formed(slots),
        frontier(slots) <= extent.offset,
    ensures
        as_map(with(slots, key, extent)) == as_map(slots).insert(key, extent),
{
    let next = with(slots, key, extent);
    lemma_with(slots, key, extent);
    assert forall|k: Seq<char>| as_map(next).dom().contains(k) == as_map(slots).insert(
        key,
        extent,
    ).dom().contains(k) by {
        if k != key {
            assert(lookup(next, k) == lookup(slots, k));
        }
    }
    assert forall|k: Seq<char>| as_map(next).dom().contains(k) implies as_map(next)[k] == as_map(
        slots,
    ).insert(key, extent)[k] by {
        if k != key {
            assert(lookup(next, k) == lookup(slots, k));
        }
    }
    assert(as_map(next) =~= as_map(slots).insert(key, extent));
}

/// Removing a key is a remove from the map.
pub proof fn lemma_as_map_without(slots: Seq<Slot>, key: Seq<char>)
    requires
        well_formed(slots),
    ensures
        as_map(without(slots, key)) == as_map(slots).remove(key),
{
    let rest = without(slots, key);
    lemma_without(slots, key);
    assert forall|k: Seq<char>| as_map(rest).dom().contains(k) == as_map(slots).remove(
        key,
    ).dom().contains(k) by {
        if k != key {
            assert(lookup(rest, k) == lookup(slots, k));
        }
    }
    assert forall|k: Seq<char>| as_map(rest).dom().contains(k) implies as_map(rest)[k] == as_map(
        slots,
    ).remove(key)[k] by {
        assert(lookup(rest, k) == lookup(slots, k));
    }
    assert(as_map(rest) =~= as_map(slots).remove(key));
}

/// Giving the entry at a place another extent is an insert into the map.
pub proof fn lemma_as_map_update(slots: Seq<Slot>, i: int, extent: Extent)
    requires
        distinct_keys(slots),
        0 <= i < slots.len(),
    ensures
        distinct_keys(slots.update(i, Slot { key: slots[i].key, extent })),
        as_map(slots.update(i, Slot { key: slots[i].key, extent })) == as_map(slots).insert(
            slots[i].key,
            extent,
        ),
{
    let key = slots[i].key;
    let next = slots.update(i, Slot { key, extent });
    assert forall|a: int, b: int| 0 <= a < b < next.len() implies (#[trigger] next[a]).key != (
    #[trigger] next[b]).key by {
        assert(next[a].key == slots[a].key);
        assert(next[b].key == slots[b].key);
    }
    assert forall|k: Seq<char>| holds(next, k) == holds(slots, k) by {
        if holds(next, k) {
            let j = slot_of(next, k);
            assert(slots[j].key == k);
        }
        if holds(slots, k) {
            let j = slot_of(slots, k);
            assert(next[j].key == k);
        }
    }
    assert forall|k: Seq<char>| as_map(next).dom().contains(k) implies as_map(next)[k] == as_map(
        slots,
    ).insert(key, extent)[k] by {
        let j = slot_of(slots, k);
        assert(next[j].key == k);
        lemma_slot_found(next, j);
        lemma_slot_found(slots, j);
    }
    lemma_slot_found(slots, i);
    assert(as_map(next) =~= as_map(slots).insert(key, extent));
}

/// One entry of the index.
pub struct IndexEntry {
    pub key: String,
    pub extent: Extent,
}

impl View for IndexEntry {
    type V = Slot;

    open spec fn view(&self) -> Slot {
        Slot { key: self.key@, extent: self.extent }
    }
}

/// The in-memory index of the store.
pub struct Index {
    entries: Vec<IndexEntry>,
    places: StringHashMap<Extent>,
}

impl View for Index {
    type V = Seq<Slot>;

    closed spec fn view(&self) -> Seq<Slot> {
        Seq::new(self.entries@.len(), |i: int| self.entries@[i]@)
    }
}

impl Index {
    /// Whether the hash map maps each key of the entries to its extent and
    /// no other key.
    pub closed spec fn hashed(&self) -> bool {
        self.places@ == as_map(self@)
    }

    /// The invariant: no key twice, extents in the order of the log, and the
    /// hash map in step with the entries.
    pub open spec fn wf(&self) -> bool {
        well_formed(self@) && self.hashed()
    }

    /// The empty index.
    pub fn new() -> (index: Index)
        ensures
            index@ == Seq::<Slot>::empty(),
            index.wf(),
    {
        let index = Index { entries: Vec::new(), places: StringHashMap::new() };
        assert(index@ =~= Seq::<Slot>::empty());
        assert(index.places@ =~= as_map(index@));
        index
    }

    /// The number of live keys.
    pub fn len(&self) -> (n: usize)
        ensures
            n == self@.len(),
    {
        self.entries.len()
    }

    /// Whether the key is live.
    pub fn contains_key(&self, key: &String) -> (r: bool)
        requires
            self.wf(),
        ensures
            r == holds(self@, key@),
    {
        self.places.contains_key(key.as_str())
    }

    /// Point lookup: the extent of the key's latest put record, if the key is
    /// live.
    pub fn get(&self, key: &String) -> (r: Option<Extent>)
        requires
            self.wf(),
        ensures
            r == lookup(self@, key@),
    {
        match self.places.get(key.as_str()) {
            Some(extent) => Some(*extent),
            None => None,
        }
    }

    /// Takes the entry of a live key out of the entries; the hash map stays.
    fn drop_entry(&mut self, key: &String)
        requires
            well_formed(old(self)@),
            holds(old(self)@, key@),
        ensures
            final(self)@ == without(old(self)@, key@),
            final(self).places == old(self).places,
    {
        let mut i: usize = 0;
        while i < self.entries.len()
            invariant
                i < self.entries@.len(),
                self@.len() == self.entries@.len(),
                holds(self@, key@),
                forall|j: int| 0 <= j < i ==> (#[trigger] self@[j]).key != key@,
                *self == *old(self),
            ensures
                i < self.entries@.len(),
                self@[i as int].key == key@,
                *self == *old(self),
            decreases self.entries.len() - i,
        {
            if self.entries[i].key == *key {
                break ;
            }
            proof {
                let p = slot_of(self@, key@);
                assert(self@[p].key == key@);
            }
            i += 1;
        }
        proof {
            lemma_slot_found(self@, i as int);
        }
        self.entries.remove(i);
        assert(self@ =~= without(old(self)@, key@));
    }

    /// Erase: the key is live no longer. Says whether it was.
    pub fn remove(&mut self, key: &String) -> (was_live: bool)
        requires
            old(self).wf(),
        ensures
            final(self)@ == without(old(self)@, key@),
            was_live == holds(old(self)@, key@),
            final(self).wf(),
    {
        proof {
            lemma_without(self@, key@);
            lemma_as_map_without(self@, key@);
        }
        if !self.places.contains_key(key.as_str()) {
            return false;
        }
        self.drop_entry(key);
        self.places.remove(key.as_str());
        true
    }

    /// Insert or overwrite: maps the key to the extent of a record that was
    /// appended behind every record the index points to.
    pub fn insert(&mut self, key: String, extent: Extent)
        requires
            old(self).wf(),
            frontier(old(self)@) <= extent.offset,
        ensures
            final(self)@ == with(old(self)@, key@, extent),
            final(self).wf(),
    {
        proof {
            lemma_with(self@, key@, extent);
            lemma_as_map_with(self@, key@, extent);
        }
        if self.places.contains_key(key.as_str()) {
            self.drop_entry(&key);
        }
        self.entries.push(IndexEntry { key: key.clone(), extent });
        self.places.insert(key, extent);
        assert(self@ =~= with(old(self)@, key@, extent));
    }

    /// The extents of the live records in the order of the log, and the sum of
    /// their lengths, for a rewrite that copies them one behind the other into
    /// a new log; the index then points into that new log.
    pub fn repack(&mut self) -> (plan: (Vec<Extent>, u64))
        requires
            old(self).wf(),
            frontier(old(self)@) <= u64::MAX,
        ensures
            plan.0@ == extents(old(self)@),
            plan.1 == total_length(old(self)@),
            final(self)@ == packed(old(self)@),
            final(self).wf(),
    {
        let n = self.entries.len();
        let mut plan: Vec<Extent> = Vec::new();
        let mut offset: u64 = 0;
        let mut i: usize = 0;
        proof {
            lemma_packed(self@);
            lemma_total_length_bound(self@);
            assert(self@.take(0) =~= Seq::<Slot>::empty());
        }
        while i < n
            invariant
                i <= n,
                n == old(self)@.len(),
                self@.len() == n,
                self.entries@.len() == n,
                offset == total_length(old(self)@.take(i as int)),
                total_length(old(self)@) <= u64::MAX,
                plan@ == extents(old(self)@).take(i as int),
                distinct_keys(self@),
                self.hashed(),
                forall|j: int| 0 <= j < i ==> #[trigger] self@[j] == packed(old(self)@)[j],
                forall|j: int| i <= j < n ==> #[trigger] self@[j] == old(self)@[j],
            decreases n - i,
        {
            let extent = self.entries[i].extent;
            let moved = Extent { offset, length: extent.length };
            let ghost before = self@;
            proof {
                assert(before[i as int] == old(self)@[i as int]);
                lemma_total_length_grows(old(self)@, i as int, i as int);
                lemma_total_length_grows(old(self)@, i as int + 1, n as int);
                lemma_as_map_update(before, i as int, moved);
            }
            plan.push(extent);
            let key = self.entries[i].key.clone();
            self.entries[i].extent = moved;
            self.places.insert(key, moved);
            offset = offset + extent.length;
            i += 1;
            proof {
                assert(self@ =~= before.update(i - 1, Slot { key: before[i - 1].key, extent: moved }));
                assert(self@[i - 1] == packed(old(self)@)[i - 1]);
                assert forall|j: int| 0 <= j < i implies #[trigger] self@[j] == packed(
                    old(self)@,
                )[j] by {
                    if j < i - 1 {
                        assert(self@[j] == before[j]);
                    }
                }
                assert forall|j: int| i <= j < n implies #[trigger] self@[j] == old(self)@[j] by {
                    assert(self@[j] == before[j]);
                }
                assert(plan@ =~= extents(old(self)@).take(i as int));
            }
        }
        assert(self@ =~= packed(old(self)@));
        assert(plan@ =~= extents(old(self)@));
        assert(old(self)@.take(n as int) =~= old(self)@);
        (plan, offset)
    }
}

} // verus!
