//! A binary min-heap whose entries can be found again by their key, so that
//! the priority of an entry can be lowered in place.

use vstd::prelude::*;
use crate::map::{MapGet, MapMut};
use crate::model::index::Index;
use crate::priority::Priority;

verus! {

/// A priority queue of `(key, priority)` entries, one per key. The entries
/// lie in an array in heap order; `map` tells for each key the slot of its
/// entry.
pub struct BinaryHeap<K, T, M> {
    heap: Vec<Option<(K, T)>>,
    map: M,
}

/// What a queue with the entries `entries` holds once `value` was offered
/// for `key`: the offer is taken where the key is new or `value` ranks
/// strictly higher than what the key has.
pub open spec fn offer<K, T: Priority>(entries: Map<K, T>, key: K, value: T) -> Map<K, T> {
    if offer_changes(entries, key, value) {
        entries.insert(key, value)
    } else {
        entries
    }
}

/// Whether offering `value` for `key` changes a queue with the entries
/// `entries`.
pub open spec fn offer_changes<K, T: Priority>(entries: Map<K, T>, key: K, value: T) -> bool {
    !entries.contains_key(key) || !entries[key].at_most_spec(&value)
}

/// Whether `(key, value)` is an entry of `entries` that ranks no higher than
/// any entry.
pub open spec fn is_least_entry<K, T: Priority>(entries: Map<K, T>, key: K, value: T) -> bool {
    &&& entries.contains_key(key)
    &&& entries[key] == value
    &&& forall|k: K| entries.contains_key(k) ==> value.at_most_spec(&#[trigger] entries[k])
}

/// What a queue holds once all of `offers` were offered to an empty queue, in
/// their order.
pub open spec fn offer_all<K, T: Priority>(offers: Seq<(K, T)>) -> Map<K, T>
    decreases offers.len(),
{
    if offers.len() == 0 {
        Map::empty()
    } else {
        offer(offer_all(offers.drop_last()), offers.last().0, offers.last().1)
    }
}

/// After any sequence of offers to an empty queue, the keys of the queue are
/// the keys that were offered, and the value of a key is one of the values
/// offered for it and ranks no higher than any of them.
pub proof fn lemma_offers_keep_least<K, T: Priority>(offers: Seq<(K, T)>, key: K)
    ensures
        offer_all(offers).contains_key(key) <==> exists|i: int|
            0 <= i < offers.len() && (#[trigger] offers[i]).0 == key,
        offer_all(offers).contains_key(key) ==> exists|i: int|
            0 <= i < offers.len() && #[trigger] offers[i] == (key, offer_all(offers)[key]),
        forall|i: int|
            0 <= i < offers.len() && (#[trigger] offers[i]).0 == key ==> offer_all(
                offers,
            )[key].at_most_spec(&offers[i].1),
    decreases offers.len(),
{
    if offers.len() > 0 {
        let earlier = offers.drop_last();
        let last = offers.last();
        let n = earlier.len() as int;
        lemma_offers_keep_least(earlier, key);
        let before = offer_all(earlier);
        let after = offer_all(offers);
        assert(offers[n] == last);
        assert forall|i: int| 0 <= i < n implies earlier[i] == offers[i] by {}
        if before.contains_key(key) {
            let j = choose|j: int| 0 <= j < n && earlier[j] == (key, before[key]);
            assert(offers[j] == (key, before[key]));
        }
        if after.contains_key(key) {
            if last.0 == key && offer_changes(before, key, last.1) {
                assert(offers[n] == (key, after[key]));
            } else {
                assert(before.contains_key(key));
                let j = choose|j: int| 0 <= j < n && earlier[j] == (key, before[key]);
                assert(offers[j] == (key, after[key]));
            }
        }
        assert forall|i: int| 0 <= i < offers.len() && (#[trigger] offers[i]).0 == key implies after[key].at_most_spec(
            &offers[i].1,
        ) by {
            if last.0 == key {
                if offer_changes(before, key, last.1) {
                    T::lemma_total(&last.1, &last.1);
                    if i < n {
                        assert(earlier[i].0 == key);
                        assert(before.contains_key(key));
                        T::lemma_total(&before[key], &last.1);
                        T::lemma_transitive(&last.1, &before[key], &offers[i].1);
                    }
                } else {
                    if i < n {
                        assert(earlier[i].0 == key);
                    }
                }
            } else {
                assert(earlier[i].0 == key);
            }
        }
    }
}

/// Of two entries that are taken out one after the other, each the least of
/// what the queue held, the first ranks no higher than the second.
pub proof fn lemma_least_entries_ascend<K, T: Priority>(
    entries: Map<K, T>,
    first: (K, T),
    second: (K, T),
)
    requires
        is_least_entry(entries, first.0, first.1),
        is_least_entry(entries.remove(first.0), second.0, second.1),
    ensures
        first.1.at_most_spec(&second.1),
{
    assert(entries.contains_key(second.0));
    assert(entries[second.0] == second.1);
}

/// The slot above slot `i`.
pub open spec fn parent(i: int) -> int {
    (i - 1) / 2
}

impl<K: Copy, T: Priority, M: MapMut<K, Value = Option<Index>>> View for BinaryHeap<K, T, M> {
    type V = Map<K, T>;

    /// The entries of the queue: each key with its priority.
    closed spec fn view(&self) -> Map<K, T> {
        Map::new(
            |k: K| self.map.at(k) is Some,
            |k: K| self.heap@[self.map.at(k).unwrap().index_spec() as int].unwrap().1,
        )
    }
}

impl<K: Copy, T: Priority, M: MapMut<K, Value = Option<Index>>> BinaryHeap<K, T, M> {
    /// The number of entries.
    pub closed spec fn len_spec(&self) -> nat {
        self.heap@.len()
    }

    /// Slot `i` holds an entry, and the map leads from its key back to `i`.
    spec fn entry_ok(&self, i: int) -> bool {
        &&& self.heap@[i] is Some
        &&& self.map.at(self.heap@[i].unwrap().0) is Some
        &&& self.map.at(self.heap@[i].unwrap().0).unwrap().index_spec() == i
    }

    /// The entry of slot `p` ranks no higher than that of slot `c`.
    spec fn ranked(&self, p: int, c: int) -> bool {
        self.heap@[p].unwrap().1.at_most_spec(&self.heap@[c].unwrap().1)
    }

    /// `value` ranks no higher than the entries in the slots below `i`.
    spec fn under(&self, value: &T, i: int) -> bool {
        forall|c: int|
            0 < c < self.heap@.len() && parent(c) == i ==> value.at_most_spec(
                &(#[trigger] self.heap@[c]).unwrap().1,
            )
    }

    /// What holds of every queue between two calls: every slot holds an
    /// entry, the map holds exactly the slots of the keys, and no entry ranks
    /// higher than the entries in the two slots below it.
    pub closed spec fn wf(&self) -> bool {
        &&& self.heap@.len() <= Index::limit()
        &&& forall|k: K| self.map.defined(k)
        &&& forall|i: int| 0 <= i < self.heap@.len() ==> self.entry_ok(i)
        &&& forall|k: K|
            (#[trigger] self.map.at(k)) is Some ==> self.map.at(k).unwrap().index_spec()
                < self.heap@.len() && self.heap@[self.map.at(k).unwrap().index_spec() as int].unwrap().0
                == k
        &&& forall|i: int| 0 < i < self.heap@.len() ==> #[trigger] self.ranked(parent(i), i)
    }

    /// The state inside a call that is moving the entry of `key` to its
    /// place: slot `hole` is free for it, and all other slots are as in a
    /// well-formed queue that does not hold `key`.
    spec fn holed(&self, hole: int, key: K) -> bool {
        &&& self.heap@.len() <= Index::limit()
        &&& forall|k: K| self.map.defined(k)
        &&& 0 <= hole < self.heap@.len()
        &&& forall|i: int|
            0 <= i < self.heap@.len() && i != hole ==> self.entry_ok(i) && (
            #[trigger] self.heap@[i]).unwrap().0 != key
        &&& forall|k: K|
            k != key && (#[trigger] self.map.at(k)) is Some ==> {
                &&& self.map.at(k).unwrap().index_spec() < self.heap@.len()
                &&& self.map.at(k).unwrap().index_spec() != hole
                &&& self.heap@[self.map.at(k).unwrap().index_spec() as int].unwrap().0 == k
            }
        &&& forall|i: int|
            0 < i < self.heap@.len() && i != hole && parent(i) != hole ==> #[trigger] self.ranked(
                parent(i),
                i,
            )
        &&& forall|i: int|
            0 < i < self.heap@.len() && parent(i) == hole && hole > 0 ==> #[trigger] self.ranked(
                parent(hole),
                i,
            )
    }

    /// Constructs a new binary heap over a map that holds no slot yet.
    pub fn new(map: M) -> (h: Self)
        requires
            forall|k: K| map.defined(k),
            forall|k: K| map.at(k) is None,
        ensures
            h.wf(),
            h@ == Map::<K, T>::empty(),
            h.len_spec() == 0,
    {
        let h = BinaryHeap { heap: Vec::new(), map };
        assert(h@ =~= Map::<K, T>::empty());
        h
    }

    /// Puts `item` into slot `index` and records the slot under its key.
    fn set_item(&mut self, index: usize, item: (K, T))
        requires
            index < old(self).heap@.len(),
            index < Index::limit(),
            forall|k: K| old(self).map.defined(k),
        ensures
            final(self).heap@ == old(self).heap@.update(index as int, Some(item)),
            final(self).map.at(item.0) is Some,
            final(self).map.at(item.0).unwrap().index_spec() == index,
            forall|k: K| k != item.0 ==> final(self).map.at(k) == old(self).map.at(k),
            forall|k: K| final(self).map.defined(k),
    {
        *self.map.get_mut(item.0) = Some(Index::new(index));
        self.heap[index] = Some(item);
    }

    /// Takes the entry out of slot `from` and puts it into slot `hole`, which
    /// thereby stops being the free slot; `from` becomes it.
    fn move_entry(&mut self, from: usize, hole: usize, Ghost(key): Ghost<K>)
        requires
            old(self).holed(hole as int, key),
            from < old(self).heap@.len(),
            from != hole,
        ensures
            final(self).heap@.len() == old(self).heap@.len(),
            final(self).heap@[hole as int] == old(self).heap@[from as int],
            forall|i: int|
                0 <= i < final(self).heap@.len() && i != hole && i != from ==> final(self).heap@[i]
                    == old(self).heap@[i],
            forall|k: K| final(self).map.defined(k),
            final(self).map.at(old(self).heap@[from as int].unwrap().0) is Some,
            final(self).map.at(old(self).heap@[from as int].unwrap().0).unwrap().index_spec()
                == hole,
            forall|k: K|
                k != old(self).heap@[from as int].unwrap().0 ==> final(self).map.at(k) == old(
                    self,
                ).map.at(k),
            final(self)@.remove(key) == old(self)@.remove(key),
    {
        assert(self.entry_ok(from as int) && self.heap@[from as int].unwrap().0 != key);
        let moved = match self.heap[from].take() {
            Some(entry) => entry,
            None => vstd::pervasive::unreached(),
        };
        self.set_item(hole, moved);
        proof {
            assert(self@.remove(key) =~= old(self)@.remove(key)) by {
                assert forall|k: K| k != key && self.map.at(k) is Some implies self@[k] == old(
                    self,
                )@[k] by {
                    if k != moved.0 {
                        assert(old(self).map.at(k) is Some);
                    }
                }
            }
        }
    }

    /// The slots once `item` has risen from the free slot `index`: at the
    /// root, or where the entry above ranks no higher than `item`, `item`
    /// fills slot `index`; else the entry above moves down into slot `index`,
    /// and `item` rises on from the slot that it left. No other slot changes.
    pub open spec fn raised(slots: Seq<Option<(K, T)>>, index: int, item: (K, T)) -> Seq<Option<(K, T)>>
        decreases index,
    {
        if index <= 0 || slots[parent(index)].unwrap().1.at_most_spec(&item.1) {
            slots.update(index, Some(item))
        } else {
            Self::raised(slots.update(index, slots[parent(index)]), parent(index), item)
        }
    }

    /// What the free slot holds does not matter to how `item` rises from it.
    proof fn lemma_raised_from_any(
        slots: Seq<Option<(K, T)>>,
        index: int,
        item: (K, T),
        held: Option<(K, T)>,
    )
        requires
            0 <= index < slots.len(),
        ensures
            Self::raised(slots.update(index, held), index, item) == Self::raised(
                slots,
                index,
                item,
            ),
    {
        let other = slots.update(index, held);
        assert(other.update(index, Some(item)) =~= slots.update(index, Some(item)));
        if index > 0 {
            assert(other.update(index, other[parent(index)]) =~= slots.update(
                index,
                slots[parent(index)],
            ));
        }
    }

    /// Moves the free slot from `index` towards the root until `item` ranks
    /// no lower than the entry above the free slot, and puts `item` there.
    fn bubble_up(&mut self, index: usize, item: (K, T))
        requires
            old(self).holed(index as int, item.0),
            old(self).under(&item.1, index as int),
        ensures
            final(self).wf(),
            final(self).heap@.len() == old(self).heap@.len(),
            final(self)@ == old(self)@.remove(item.0).insert(item.0, item.1),
            final(self).heap@ == Self::raised(old(self).heap@, index as int, item),
    {
        let ghost start = index as int;
        let mut index = index;
        while index > 0
            invariant
                self.holed(index as int, item.0),
                self.under(&item.1, index as int),
                self.heap@.len() == old(self).heap@.len(),
                self@.remove(item.0) == old(self)@.remove(item.0),
                Self::raised(self.heap@, index as int, item) == Self::raised(
                    old(self).heap@,
                    start,
                    item,
                ),
            ensures
                index > 0 ==> self.heap@[parent(index as int)].unwrap().1.at_most_spec(&item.1),
                Self::raised(self.heap@, index as int, item) == self.heap@.update(
                    index as int,
                    Some(item),
                ),
            decreases index,
        {
            let parent_index: usize = (index - 1) / 2;
            let ghost before = *self;
            assert(self.entry_ok(parent_index as int));
            let stop = match &self.heap[parent_index] {
                Some(entry) => entry.1.at_most(&item.1),
                None => vstd::pervasive::unreached(),
            };
            if stop {
                break;
            }
            self.move_entry(parent_index, index, Ghost(item.0));
            proof {
                let h = index as int;
                let p = parent_index as int;
                let moved = before.heap@.update(h, before.heap@[p]);
                assert(self.heap@ =~= moved.update(p, self.heap@[p]));
                Self::lemma_raised_from_any(moved, p, item, self.heap@[p]);
                assert(Self::raised(before.heap@, h, item) == Self::raised(moved, p, item));
                let up = before.heap@[p].unwrap().1;
                T::lemma_total(&up, &item.1);
                assert forall|i: int|
                    0 <= i < self.heap@.len() && i != p implies self.entry_ok(i) && (
                #[trigger] self.heap@[i]).unwrap().0 != item.0 by {
                    if i != h {
                        assert(before.entry_ok(i));
                    }
                }
                assert forall|i: int|
                    0 < i < self.heap@.len() && i != p && parent(i) != p implies #[trigger] self.ranked(
                    parent(i),
                    i,
                ) by {
                    if parent(i) == h {
                        assert(before.ranked(parent(h), i));
                    } else {
                        assert(before.ranked(parent(i), i));
                    }
                }
                assert forall|i: int|
                    0 < i < self.heap@.len() && parent(i) == p && p > 0 implies #[trigger] self.ranked(
                    parent(p),
                    i,
                ) by {
                    assert(before.ranked(parent(p), p));
                    if i != h {
                        assert(before.ranked(p, i));
                        T::lemma_transitive(
                            &before.heap@[parent(p)].unwrap().1,
                            &up,
                            &before.heap@[i].unwrap().1,
                        );
                    }
                }
                assert forall|c: int|
                    0 < c < self.heap@.len() && parent(c) == p implies item.1.at_most_spec(
                    &(#[trigger] self.heap@[c]).unwrap().1,
                ) by {
                    if c != h {
                        assert(before.ranked(p, c));
                        T::lemma_transitive(&item.1, &up, &before.heap@[c].unwrap().1);
                    }
                }
            }
            index = parent_index;
        }
        let ghost before = *self;
        self.set_item(index, item);
        proof {
            let h = index as int;
            assert forall|i: int| 0 <= i < self.heap@.len() implies self.entry_ok(i) by {
                if i != h {
                    assert(before.entry_ok(i));
                }
            }
            assert forall|i: int| 0 < i < self.heap@.len() implies #[trigger] self.ranked(
                parent(i),
                i,
            ) by {
                if i == h {
                } else if parent(i) == h {
                    assert(before.heap@[i] == self.heap@[i]);
                } else {
                    assert(before.ranked(parent(i), i));
                }
            }
            assert(self@ =~= old(self)@.remove(item.0).insert(item.0, item.1)) by {
                assert forall|k: K| k != item.0 && self.map.at(k) is Some implies self@[k]
                    == before@[k] by {}
                assert(before@.remove(item.0) == old(self)@.remove(item.0));
            }
        }
    }

    /// The slots once `item` has sunk from the free slot `index`: where no
    /// slot lies below `index`, or `item` ranks no higher than the entry below
    /// that ranks lowest (the one on the right where both rank alike), `item`
    /// fills slot `index`; else that entry moves up into slot `index`, and
    /// `item` sinks on from the slot that it left. No other slot changes.
    pub open spec fn sunk(slots: Seq<Option<(K, T)>>, index: int, item: (K, T)) -> Seq<Option<(K, T)>>
        decreases slots.len() - index,
    {
        let left = 2 * index + 1;
        let right = left + 1;
        if index < 0 || left >= slots.len() {
            slots.update(index, Some(item))
        } else {
            let child = if right < slots.len() && slots[right].unwrap().1.at_most_spec(
                &slots[left].unwrap().1,
            ) {
                right
            } else {
                left
            };
            if item.1.at_most_spec(&slots[child].unwrap().1) {
                slots.update(index, Some(item))
            } else {
                Self::sunk(slots.update(index, slots[child]), child, item)
            }
        }
    }

    /// What the free slot holds does not matter to how `item` sinks from it.
    proof fn lemma_sunk_from_any(
        slots: Seq<Option<(K, T)>>,
        index: int,
        item: (K, T),
        held: Option<(K, T)>,
    )
        requires
            0 <= index < slots.len(),
        ensures
            Self::sunk(slots.update(index, held), index, item) == Self::sunk(slots, index, item),
    {
        let other = slots.update(index, held);
        let left = 2 * index + 1;
        let right = left + 1;
        assert(other.update(index, Some(item)) =~= slots.update(index, Some(item)));
        if left < slots.len() {
            let child = if right < slots.len() && slots[right].unwrap().1.at_most_spec(
                &slots[left].unwrap().1,
            ) {
                right
            } else {
                left
            };
            assert(other.update(index, other[child]) =~= slots.update(index, slots[child]));
        }
    }

    /// Sinking `item` from slot `index` leaves the number of slots and every
    /// slot before `index` as they are.
    pub proof fn lemma_sunk_keeps_earlier(slots: Seq<Option<(K, T)>>, index: int, item: (K, T))
        requires
            0 <= index < slots.len(),
        ensures
            Self::sunk(slots, index, item).len() == slots.len(),
            forall|i: int| 0 <= i < index ==> Self::sunk(slots, index, item)[i] == slots[i],
        decreases slots.len() - index,
    {
        let left = 2 * index + 1;
        let right = left + 1;
        if left < slots.len() {
            let child = if right < slots.len() && slots[right].unwrap().1.at_most_spec(
                &slots[left].unwrap().1,
            ) {
                right
            } else {
                left
            };
            if !item.1.at_most_spec(&slots[child].unwrap().1) {
                let moved = slots.update(index, slots[child]);
                Self::lemma_sunk_keeps_earlier(moved, child, item);
                assert forall|i: int| 0 <= i < index implies Self::sunk(slots, index, item)[i]
                    == slots[i] by {
                    assert(Self::sunk(moved, child, item)[i] == moved[i]);
                }
            }
        }
    }

    /// Moves the free slot from `index` towards the leaves until `item` ranks
    /// no higher than the entries below the free slot, and puts `item` there.
    fn sink_down(&mut self, index: usize, item: (K, T))
        requires
            old(self).holed(index as int, item.0),
            index > 0 ==> old(self).heap@[parent(index as int)].unwrap().1.at_most_spec(&item.1),
        ensures
            final(self).wf(),
            final(self).heap@.len() == old(self).heap@.len(),
            final(self)@ == old(self)@.remove(item.0).insert(item.0, item.1),
            final(self).heap@ == Self::sunk(old(self).heap@, index as int, item),
    {
        let ghost start = index as int;
        let mut index = index;
        let len: usize = self.heap.len();
        loop
            invariant
                len == self.heap@.len(),
                self.holed(index as int, item.0),
                index > 0 ==> self.heap@[parent(index as int)].unwrap().1.at_most_spec(&item.1),
                self.heap@.len() == old(self).heap@.len(),
                self@.remove(item.0) == old(self)@.remove(item.0),
                Self::sunk(self.heap@, index as int, item) == Self::sunk(
                    old(self).heap@,
                    start,
                    item,
                ),
            ensures
                self.under(&item.1, index as int),
                Self::sunk(self.heap@, index as int, item) == self.heap@.update(
                    index as int,
                    Some(item),
                ),
            decreases len - index,
        {
            if index >= len / 2 {
                break;
            }
            let left_index: usize = 2 * index + 1;
            let right_index: usize = left_index + 1;
            let ghost before = *self;
            assert(self.entry_ok(left_index as int));
            let item_first = match &self.heap[left_index] {
                Some(left) => item.1.at_most(&left.1),
                None => vstd::pervasive::unreached(),
            };
            let child_index: usize = if right_index >= len {
                if item_first {
                    break;
                }
                left_index
            } else {
                assert(self.entry_ok(right_index as int));
                let left_first = match (&self.heap[left_index], &self.heap[right_index]) {
                    (Some(left), Some(right)) => !right.1.at_most(&left.1),
                    _ => vstd::pervasive::unreached(),
                };
                if left_first {
                    if item_first {
                        proof {
                            let l = before.heap@[left_index as int].unwrap().1;
                            let r = before.heap@[right_index as int].unwrap().1;
                            T::lemma_total(&l, &r);
                            T::lemma_transitive(&item.1, &l, &r);
                        }
                        break;
                    }
                    left_index
                } else {
                    let stop = match &self.heap[right_index] {
                        Some(right) => item.1.at_most(&right.1),
                        None => vstd::pervasive::unreached(),
                    };
                    if stop {
                        proof {
                            let l = before.heap@[left_index as int].unwrap().1;
                            let r = before.heap@[right_index as int].unwrap().1;
                            T::lemma_transitive(&item.1, &r, &l);
                        }
                        break;
                    }
                    right_index
                }
            };
            self.move_entry(child_index, index, Ghost(item.0));
            proof {
                let h = index as int;
                let c = child_index as int;
                let moved = before.heap@.update(h, before.heap@[c]);
                assert(self.heap@ =~= moved.update(c, self.heap@[c]));
                Self::lemma_sunk_from_any(moved, c, item, self.heap@[c]);
                assert(Self::sunk(before.heap@, h, item) == Self::sunk(moved, c, item));
                let down = before.heap@[c].unwrap().1;
                T::lemma_total(&down, &item.1);
                assert forall|i: int|
                    0 <= i < self.heap@.len() && i != c implies self.entry_ok(i) && (
                #[trigger] self.heap@[i]).unwrap().0 != item.0 by {
                    if i != h {
                        assert(before.entry_ok(i));
                    }
                }
                assert forall|i: int|
                    0 < i < self.heap@.len() && i != c && parent(i) != c implies #[trigger] self.ranked(
                    parent(i),
                    i,
                ) by {
                    if i == h {
                        assert(before.ranked(parent(h), c));
                    } else if parent(i) == h {
                        let l = before.heap@[left_index as int].unwrap().1;
                        let r = before.heap@[right_index as int].unwrap().1;
                        T::lemma_total(&l, &r);
                    } else {
                        assert(before.ranked(parent(i), i));
                    }
                }
                assert forall|i: int|
                    0 < i < self.heap@.len() && parent(i) == c && c > 0 implies #[trigger] self.ranked(
                    parent(c),
                    i,
                ) by {
                    assert(before.ranked(c, i));
                }
            }
            index = child_index;
        }
        let ghost before = *self;
        self.set_item(index, item);
        proof {
            let h = index as int;
            assert forall|i: int| 0 <= i < self.heap@.len() implies self.entry_ok(i) by {
                if i != h {
                    assert(before.entry_ok(i));
                }
            }
            assert forall|i: int| 0 < i < self.heap@.len() implies #[trigger] self.ranked(
                parent(i),
                i,
            ) by {
                if i == h {
                } else if parent(i) == h {
                    assert(before.heap@[i] == self.heap@[i]);
                } else {
                    assert(before.ranked(parent(i), i));
                }
            }
            assert(self@ =~= old(self)@.remove(item.0).insert(item.0, item.1)) by {
                assert forall|k: K| k != item.0 && self.map.at(k) is Some implies self@[k]
                    == before@[k] by {}
                assert(before@.remove(item.0) == old(self)@.remove(item.0));
            }
        }
    }

    /// The entry at the root ranks no higher than any entry.
    proof fn lemma_root_least(&self, i: int)
        requires
            self.wf(),
            0 <= i < self.heap@.len(),
        ensures
            self.ranked(0, i),
        decreases i,
    {
        if i == 0 {
            T::lemma_total(&self.heap@[0].unwrap().1, &self.heap@[0].unwrap().1);
        } else {
            self.lemma_root_least(parent(i));
            assert(self.ranked(parent(i), i));
            T::lemma_transitive(
                &self.heap@[0].unwrap().1,
                &self.heap@[parent(i)].unwrap().1,
                &self.heap@[i].unwrap().1,
            );
        }
    }

    /// The queue has as many keys as it has entries.
    pub proof fn lemma_len(&self)
        requires
            self.wf(),
        ensures
            self@.dom().finite(),
            self@.dom().len() == self.len_spec(),
    {
        let keys = Seq::new(self.heap@.len(), |i: int| self.heap@[i].unwrap().0);
        assert forall|i: int, j: int|
            0 <= i < keys.len() && 0 <= j < keys.len() && i != j implies keys[i] != keys[j] by {
            assert(self.entry_ok(i));
            assert(self.entry_ok(j));
        }
        assert(keys.to_set() =~= self@.dom()) by {
            assert forall|k: K| keys.to_set().contains(k) <==> self@.dom().contains(k) by {
                if keys.to_set().contains(k) {
                    let i = choose|i: int| 0 <= i < keys.len() && keys[i] == k;
                    assert(self.entry_ok(i));
                }
                if self@.dom().contains(k) {
                    assert(self.map.at(k) is Some);
                    let i = self.map.at(k).unwrap().index_spec() as int;
                    assert(keys[i] == k);
                }
            }
        }
        keys.unique_seq_to_set();
        vstd::seq_lib::seq_to_set_is_finite(keys);
    }

    /// Whether the queue can take an entry for `key`: it holds one already,
    /// or a slot number is left for a new one.
    pub open spec fn accepts(&self, key: K) -> bool {
        self@.contains_key(key) || self.len_spec() < Index::limit()
    }

    /// If an item already exists and has a value not greater than `value`,
    /// return false. Otherwise, decreases the value or adds a new item.
    pub fn try_decrease(&mut self, key: K, value: T) -> (changed: bool)
        requires
            old(self).wf(),
            old(self).accepts(key),
        ensures
            final(self).wf(),
            changed == offer_changes(old(self)@, key, value),
            final(self)@ == offer(old(self)@, key, value),
            final(self).len_spec() == old(self).len_spec() + (if old(self)@.contains_key(key) {
                0nat
            } else {
                1nat
            }),
    {
        let slot: Option<Index> = *self.map.get(key);
        let index: usize = match slot {
            Some(found) => {
                let index: usize = found.index();
                assert(self.entry_ok(index as int));
                let keep = match &self.heap[index] {
                    Some(entry) => entry.1.at_most(&value),
                    None => vstd::pervasive::unreached(),
                };
                if keep {
                    return false;
                }
                proof {
                    let now = self.heap@[index as int].unwrap().1;
                    T::lemma_total(&now, &value);
                    assert forall|c: int|
                        0 < c < self.heap@.len() && parent(c) == index implies value.at_most_spec(
                        &(#[trigger] self.heap@[c]).unwrap().1,
                    ) by {
                        assert(self.ranked(parent(c), c));
                        T::lemma_transitive(&value, &now, &self.heap@[c].unwrap().1);
                    }
                    assert forall|i: int|
                        0 < i < self.heap@.len() && parent(i) == index && index
                            > 0 implies #[trigger] self.ranked(parent(index as int), i) by {
                        assert(self.ranked(parent(i), i));
                        assert(self.ranked(parent(index as int), index as int));
                        T::lemma_transitive(
                            &self.heap@[parent(index as int)].unwrap().1,
                            &now,
                            &self.heap@[i].unwrap().1,
                        );
                    }
                    assert forall|i: int|
                        0 <= i < self.heap@.len() && i != index implies self.entry_ok(i) && (
                    #[trigger] self.heap@[i]).unwrap().0 != key by {
                        assert(self.entry_ok(i));
                    }
                }
                index
            },
            None => {
                let index: usize = self.heap.len();
                self.heap.push(None);
                proof {
                    assert forall|i: int|
                        0 <= i < self.heap@.len() && i != index implies self.entry_ok(i) && (
                    #[trigger] self.heap@[i]).unwrap().0 != key by {
                        assert(old(self).entry_ok(i));
                    }
                    assert forall|i: int|
                        0 < i < self.heap@.len() && i != index && parent(i)
                            != index implies #[trigger] self.ranked(parent(i), i) by {
                        assert(old(self).ranked(parent(i), i));
                    }
                    assert(self@.remove(key) =~= old(self)@);
                }
                index
            },
        };
        self.bubble_up(index, (key, value));
        proof {
            assert(self@ =~= old(self)@.insert(key, value));
        }
        true
    }

    /// Removes and returns an item with the least value; `None` when the
    /// queue is empty.
    pub fn pop(&mut self) -> (least: Option<(K, T)>)
        requires
            old(self).wf(),
        ensures
            final(self).wf(),
            match least {
                None => {
                    &&& old(self).len_spec() == 0
                    &&& old(self)@ == Map::<K, T>::empty()
                    &&& final(self)@ == old(self)@
                    &&& final(self).len_spec() == 0
                },
                Some((key, value)) => {
                    &&& old(self).len_spec() > 0
                    &&& is_least_entry(old(self)@, key, value)
                    &&& final(self)@ == old(self)@.remove(key)
                    &&& final(self).len_spec() == old(self).len_spec() - 1
                },
            },
    {
        let last: (K, T) = match self.heap.pop() {
            None => {
                assert(self@ =~= Map::<K, T>::empty());
                return None;
            },
            Some(slot) => {
                assert(old(self).entry_ok(old(self).heap@.len() - 1));
                match slot {
                    Some(entry) => entry,
                    None => vstd::pervasive::unreached(),
                }
            },
        };
        proof {
            assert forall|k: K| old(self)@.contains_key(k) implies old(self).heap@[0].unwrap().1.at_most_spec(
                &old(self)@[k],
            ) by {
                old(self).lemma_root_least(old(self).map.at(k).unwrap().index_spec() as int);
            }
            assert(old(self).entry_ok(0));
        }
        if self.heap.len() == 0 {
            *self.map.get_mut(last.0) = None;
            proof {
                assert forall|k: K| (#[trigger] self.map.at(k)) is Some implies false by {
                    assert(old(self).map.at(k) is Some);
                }
                assert(self@ =~= old(self)@.remove(last.0));
            }
            return Some(last);
        }
        let first: (K, T) = match self.heap[0].take() {
            Some(entry) => entry,
            None => vstd::pervasive::unreached(),
        };
        *self.map.get_mut(first.0) = None;
        proof {
            let n = self.heap@.len() as int;
            assert(old(self).entry_ok(n));
            assert forall|i: int| 0 <= i < n && i != 0 implies self.entry_ok(i) && (
            #[trigger] self.heap@[i]).unwrap().0 != last.0 by {
                assert(old(self).entry_ok(i));
            }
            assert forall|i: int|
                0 < i < n && i != 0 && parent(i) != 0 implies #[trigger] self.ranked(
                parent(i),
                i,
            ) by {
                assert(old(self).ranked(parent(i), i));
            }
            assert(self@.remove(last.0) =~= old(self)@.remove(first.0).remove(last.0));
        }
        self.sink_down(0, last);
        proof {
            assert(self@ =~= old(self)@.remove(first.0));
        }
        Some(first)
    }
}

} // verus!
