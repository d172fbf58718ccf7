//! The weighted LRU cache behind the server: a map from keys to slots of a
//! doubly linked recency list kept in a vector, with a list of freed slots
//! for reuse.
use vstd::hash_map::StringHashMap;
use vstd::prelude::*;
use vstd::string::*;

use crate::cache_model::{
    CacheOp, Item, apply_op, distinct_keys, entry_weight, evicted_to_fit, has_key, item_weight, key_index,
    lemma_evicted_prefix, lemma_key_index, lemma_prefix_distinct, lemma_prepend_distinct,
    lemma_remove_distinct, lemma_total_prepend, lemma_total_remove, lemma_without_key, lookup,
    not_found_message, nothing_to_evict_message, store_outcome, too_large_message, total_weight,
    total_weight_overflow_message, touched, valid_items, without_key,
    entry_weight_overflow_message,
};
use crate::errors::{Error, ErrorView};
use crate::text::{append_str, decimal_string};

pub use crate::cache_model::CACHE_ENTRY_OVERHEAD;

verus! {

struct CacheEntry {
    key: String,
    value: Vec<u8>,
    weight: usize,
    prev: Option<usize>,
    next: Option<usize>,
}

/// Two slot vectors hold the same entries in the same slots, links aside.
spec fn same_payloads(a: Seq<Option<CacheEntry>>, b: Seq<Option<CacheEntry>>) -> bool {
    &&& a.len() == b.len()
    &&& forall|j: int|
        #![trigger a[j]]
        #![trigger b[j]]
        0 <= j < a.len() ==> {
            &&& (a[j] is Some <==> b[j] is Some)
            &&& (a[j] is Some ==> {
                &&& a[j]->Some_0.key == b[j]->Some_0.key
                &&& a[j]->Some_0.value == b[j]->Some_0.value
                &&& a[j]->Some_0.weight == b[j]->Some_0.weight
            })
        }
}

/// `m` maps the key of every item to the slot at the same position of `ord`,
/// and holds no other key.
#[verifier::opaque]
spec fn index_matches(m: Map<Seq<char>, usize>, items: Seq<Item>, ord: Seq<usize>) -> bool {
    &&& items.len() == ord.len()
    &&& forall|i: int|
        #![trigger items[i]]
        0 <= i < items.len() ==> m.contains_key(items[i].0) && m[items[i].0] == ord[i]
    &&& forall|k: Seq<char>| #[trigger] m.contains_key(k) ==> has_key(items, k)
}

/// Removing an item, its slot and its key keeps the index matching.
proof fn lemma_index_remove(m: Map<Seq<char>, usize>, items: Seq<Item>, ord: Seq<usize>, i: int)
    requires
        index_matches(m, items, ord),
        distinct_keys(items),
        0 <= i < items.len(),
    ensures
        index_matches(m.remove(items[i].0), items.remove(i), ord.remove(i)),
{
    reveal(index_matches);
    let k = items[i].0;
    let m2 = m.remove(k);
    let it2 = items.remove(i);
    let o2 = ord.remove(i);
    lemma_remove_distinct(items, i);
    assert forall|j: int| #![trigger it2[j]] 0 <= j < it2.len() implies m2.contains_key(it2[j].0)
        && m2[it2[j].0] == o2[j] by {
        if j < i {
            assert(it2[j] == items[j]);
            assert(o2[j] == ord[j]);
        } else {
            assert(it2[j] == items[j + 1]);
            assert(o2[j] == ord[j + 1]);
        }
    }
    assert forall|k2: Seq<char>| #[trigger] m2.contains_key(k2) implies has_key(it2, k2) by {
        assert(m.contains_key(k2));
    }
}

/// Taking out the item at position `i`, with its slot and key, keeps the
/// index matching and the items valid.
proof fn lemma_removal_keeps_valid(
    m: Map<Seq<char>, usize>,
    items: Seq<Item>,
    ord: Seq<usize>,
    i: int,
    limit: Option<usize>,
)
    requires
        index_matches(m, items, ord),
        valid_items(items, limit),
        0 <= i < items.len(),
    ensures
        index_matches(m.remove(items[i].0), items.remove(i), ord.remove(i)),
        valid_items(items.remove(i), limit),
        total_weight(items.remove(i)) + item_weight(items[i]) == total_weight(items),
{
    lemma_index_remove(m, items, ord, i);
    lemma_remove_distinct(items, i);
    lemma_total_remove(items, i);
}

/// Adding a new item in front, with its slot and key, keeps the index matching.
proof fn lemma_index_prepend(
    m: Map<Seq<char>, usize>,
    items: Seq<Item>,
    ord: Seq<usize>,
    item: Item,
    id: usize,
)
    requires
        index_matches(m, items, ord),
        !has_key(items, item.0),
    ensures
        index_matches(m.insert(item.0, id), seq![item] + items, seq![id] + ord),
{
    reveal(index_matches);
    let m2 = m.insert(item.0, id);
    let it2 = seq![item] + items;
    let o2 = seq![id] + ord;
    assert forall|j: int| #![trigger it2[j]] 0 <= j < it2.len() implies m2.contains_key(it2[j].0)
        && m2[it2[j].0] == o2[j] by {
        if j > 0 {
            assert(it2[j] == items[j - 1]);
            assert(o2[j] == ord[j - 1]);
            if items[j - 1].0 == item.0 {
                assert(has_key(items, item.0));
            }
        }
    }
    assert forall|k2: Seq<char>| #[trigger] m2.contains_key(k2) implies has_key(it2, k2) by {
        if k2 == item.0 {
            assert(it2[0].0 == k2);
        } else {
            assert(m.contains_key(k2));
            let j = choose|j: int| 0 <= j < items.len() && items[j].0 == k2;
            assert(it2[j + 1] == items[j]);
        }
    }
}

/// Moving one item (with its slot and weight) to the front keeps the index
/// and the weights matching, the keys distinct and the total unchanged.
proof fn lemma_move_front(
    m: Map<Seq<char>, usize>,
    items: Seq<Item>,
    weights: Seq<usize>,
    ord: Seq<usize>,
    i: int,
)
    requires
        index_matches(m, items, ord),
        distinct_keys(items),
        weights.len() == items.len(),
        forall|j: int| 0 <= j < items.len() ==> #[trigger] weights[j] == item_weight(items[j]),
        0 <= i < items.len(),
    ensures
        index_matches(m, seq![items[i]] + items.remove(i), seq![ord[i]] + ord.remove(i)),
        distinct_keys(seq![items[i]] + items.remove(i)),
        total_weight(seq![items[i]] + items.remove(i)) == total_weight(items),
        forall|j: int|
            0 <= j < items.len() ==> #[trigger] (seq![weights[i]] + weights.remove(i))[j]
                == item_weight((seq![items[i]] + items.remove(i))[j]),
{
    reveal(index_matches);
    let item = items[i];
    let k = item.0;
    lemma_index_remove(m, items, ord, i);
    lemma_remove_distinct(items, i);
    lemma_index_prepend(m.remove(k), items.remove(i), ord.remove(i), item, ord[i]);
    assert(m.remove(k).insert(k, ord[i]) =~= m);
    lemma_prepend_distinct(item, items.remove(i));
    lemma_total_remove(items, i);
    lemma_total_prepend(item, items.remove(i));
    let w2 = seq![weights[i]] + weights.remove(i);
    let it2 = seq![items[i]] + items.remove(i);
    assert forall|j: int| 0 <= j < items.len() implies #[trigger] w2[j] == item_weight(it2[j]) by {
        if j == 0 {
            assert(weights[i] == item_weight(items[i]));
        } else if j - 1 < i {
            assert(w2[j] == weights[j - 1]);
            assert(it2[j] == items[j - 1]);
            assert(weights[j - 1] == item_weight(items[j - 1]));
        } else {
            assert(w2[j] == weights[j]);
            assert(it2[j] == items[j]);
            assert(weights[j] == item_weight(items[j]));
        }
    }
}

/// The slots listed in `ord` are live, distinct and doubly linked in that
/// order, from `head` to `tail`.
#[verifier::opaque]
spec fn list_linked(
    nodes: Seq<Option<CacheEntry>>,
    ord: Seq<usize>,
    head: Option<usize>,
    tail: Option<usize>,
) -> bool {
    &&& ord.no_duplicates()
    &&& forall|i: int|
        #![trigger ord[i]]
        0 <= i < ord.len() ==> 0 <= ord[i] < nodes.len() && nodes[ord[i] as int] is Some
    &&& head == (if ord.len() == 0 {
        None
    } else {
        Some(ord[0])
    })
    &&& tail == (if ord.len() == 0 {
        None
    } else {
        Some(ord.last())
    })
    &&& forall|i: int|
        #![trigger ord[i]]
        0 <= i < ord.len() ==> nodes[ord[i] as int]->Some_0.prev == (if i == 0 {
            None
        } else {
            Some(ord[i - 1])
        })
    &&& forall|i: int|
        #![trigger ord[i]]
        0 <= i < ord.len() ==> nodes[ord[i] as int]->Some_0.next == (if i == ord.len() - 1 {
            None
        } else {
            Some(ord[i + 1])
        })
}

/// The free slots are distinct, allocated and empty.
#[verifier::opaque]
spec fn free_slots_ok(nodes: Seq<Option<CacheEntry>>, free: Seq<usize>) -> bool {
    &&& free.no_duplicates()
    &&& forall|j: int|
        #![trigger free[j]]
        0 <= j < free.len() ==> free[j] < nodes.len() && nodes[free[j] as int] is None
}


/// Every slot is accounted for: a slot holds an entry exactly when it is
/// listed in `ord`, and is empty exactly when it is on the free list.
#[verifier::opaque]
spec fn slots_accounted(nodes: Seq<Option<CacheEntry>>, ord: Seq<usize>, free: Seq<usize>) -> bool {
    forall|i: usize|
        #![trigger nodes[i as int]]
        i < nodes.len() ==> {
            &&& (nodes[i as int] is Some <==> ord.contains(i))
            &&& (nodes[i as int] is None <==> free.contains(i))
        }
}

/// Two slot vectors of the same length whose slots are filled alike.
spec fn same_filling(a: Seq<Option<CacheEntry>>, b: Seq<Option<CacheEntry>>) -> bool {
    &&& a.len() == b.len()
    &&& forall|j: int| #![trigger b[j]] 0 <= j < a.len() ==> (a[j] is Some <==> b[j] is Some)
}

/// Taking the listed slot at position `i` out of the list and freeing it
/// keeps every slot accounted for.
proof fn lemma_accounted_remove(
    nodes: Seq<Option<CacheEntry>>,
    nodes2: Seq<Option<CacheEntry>>,
    ord: Seq<usize>,
    free: Seq<usize>,
    i: int,
)
    requires
        slots_accounted(nodes, ord, free),
        ord.no_duplicates(),
        0 <= i < ord.len(),
        ord[i] < nodes.len(),
        nodes2.len() == nodes.len(),
        nodes2[ord[i] as int] is None,
        forall|j: int|
            #![trigger nodes2[j]]
            0 <= j < nodes.len() && j != ord[i] ==> (nodes2[j] is Some <==> nodes[j] is Some),
    ensures
        slots_accounted(nodes2, ord.remove(i), free.push(ord[i])),
{
    reveal(slots_accounted);
    let id = ord[i];
    let o2 = ord.remove(i);
    let f2 = free.push(id);
    assert forall|j: usize| #![trigger nodes2[j as int]] j < nodes2.len() implies {
        &&& (nodes2[j as int] is Some <==> o2.contains(j))
        &&& (nodes2[j as int] is None <==> f2.contains(j))
    } by {
        assert(nodes[j as int] is Some <==> ord.contains(j));
        assert(nodes[j as int] is None <==> free.contains(j));
        if o2.contains(j) {
            let k = choose|k: int| 0 <= k < o2.len() && o2[k] == j;
            let ko = if k < i { k } else { k + 1 };
            assert(o2[k] == ord[ko]);
        }
        if j != id {
            if ord.contains(j) {
                let k = choose|k: int| 0 <= k < ord.len() && ord[k] == j;
                assert(k != i);
                let k2 = if k < i { k } else { k - 1 };
                assert(o2[k2] == ord[k]);
            }
            if f2.contains(j) {
                let k = choose|k: int| 0 <= k < f2.len() && f2[k] == j;
                assert(k < free.len());
                assert(f2[k] == free[k]);
            }
            if free.contains(j) {
                let k = choose|k: int| 0 <= k < free.len() && free[k] == j;
                assert(f2[k] == free[k]);
            }
        } else {
            assert(f2[free.len() as int] == id);
        }
    }
}

/// Filling a free or new slot and listing it in front keeps every slot
/// accounted for.
proof fn lemma_accounted_insert(
    nodes: Seq<Option<CacheEntry>>,
    nodes2: Seq<Option<CacheEntry>>,
    ord: Seq<usize>,
    free: Seq<usize>,
    id: usize,
)
    requires
        slots_accounted(nodes, ord, free),
        free.no_duplicates(),
        free.len() > 0 ==> id == free.last() && nodes2.len() == nodes.len(),
        free.len() == 0 ==> id == nodes.len() && nodes2.len() == nodes.len() + 1,
        nodes2[id as int] is Some,
        forall|j: int|
            #![trigger nodes2[j]]
            0 <= j < nodes.len() && j != id ==> (nodes2[j] is Some <==> nodes[j] is Some),
    ensures
        slots_accounted(
            nodes2,
            seq![id] + ord,
            if free.len() > 0 {
                free.drop_last()
            } else {
                free
            },
        ),
{
    reveal(slots_accounted);
    let o2 = seq![id] + ord;
    let f2 = if free.len() > 0 {
        free.drop_last()
    } else {
        free
    };
    assert forall|j: usize| #![trigger nodes2[j as int]] j < nodes2.len() implies {
        &&& (nodes2[j as int] is Some <==> o2.contains(j))
        &&& (nodes2[j as int] is None <==> f2.contains(j))
    } by {
        if j == id {
            assert(o2[0] == id);
            if f2.contains(j) {
                let k = choose|k: int| 0 <= k < f2.len() && f2[k] == j;
                assert(free[k] == free[free.len() - 1]);
            }
        } else {
            assert(j < nodes.len());
            assert(nodes[j as int] is Some <==> ord.contains(j));
            assert(nodes[j as int] is None <==> free.contains(j));
            if ord.contains(j) {
                let k = choose|k: int| 0 <= k < ord.len() && ord[k] == j;
                assert(o2[k + 1] == ord[k]);
            }
            if o2.contains(j) {
                let k = choose|k: int| 0 <= k < o2.len() && o2[k] == j;
                assert(o2[k] == ord[k - 1]);
            }
            if free.contains(j) {
                let k = choose|k: int| 0 <= k < free.len() && free[k] == j;
                assert(f2[k] == free[k]);
            }
            if f2.contains(j) {
                let k = choose|k: int| 0 <= k < f2.len() && f2[k] == j;
                assert(f2[k] == free[k]);
            }
        }
    }
}

/// Moving the listed slot at position `i` to the front keeps every slot
/// accounted for.
proof fn lemma_accounted_move_front(
    nodes: Seq<Option<CacheEntry>>,
    nodes2: Seq<Option<CacheEntry>>,
    ord: Seq<usize>,
    free: Seq<usize>,
    i: int,
)
    requires
        slots_accounted(nodes, ord, free),
        same_filling(nodes, nodes2),
        0 <= i < ord.len(),
    ensures
        slots_accounted(nodes2, seq![ord[i]] + ord.remove(i), free),
{
    reveal(slots_accounted);
    let o2 = seq![ord[i]] + ord.remove(i);
    assert forall|j: usize| #![trigger nodes2[j as int]] j < nodes2.len() implies {
        &&& (nodes2[j as int] is Some <==> o2.contains(j))
        &&& (nodes2[j as int] is None <==> free.contains(j))
    } by {
        assert(nodes[j as int] is Some <==> ord.contains(j));
        if ord.contains(j) {
            let k = choose|k: int| 0 <= k < ord.len() && ord[k] == j;
            if k == i {
                assert(o2[0] == ord[i]);
            } else if k < i {
                assert(o2[k + 1] == ord[k]);
            } else {
                assert(o2[k] == ord[k]);
            }
        }
        if o2.contains(j) {
            let k = choose|k: int| 0 <= k < o2.len() && o2[k] == j;
            if k == 0 {
                assert(o2[0] == ord[i]);
            } else if k - 1 < i {
                assert(o2[k] == ord[k - 1]);
            } else {
                assert(o2[k] == ord[k]);
            }
        }
    }
}

/// The free slots just before a successful store of `key` fills one, when
/// `kept` of the other items stay: the free slots, then the slot of the
/// key's previous item, then those of the evicted items from the least
/// recently used on.
pub open spec fn free_before_fill(
    items: Seq<Item>,
    slots: Seq<usize>,
    free: Seq<usize>,
    key: Seq<char>,
    kept: int,
) -> Seq<usize> {
    let rest = slots_without_key(items, slots, key);
    free_without_key(items, slots, free, key) + rest.subrange(kept, rest.len() as int).reverse()
}

/// The slot that a successful store of `key` fills, when `kept` of the other
/// items stay: the slot freed last, or a new slot when none is free.
pub open spec fn store_slot(
    items: Seq<Item>,
    slots: Seq<usize>,
    free: Seq<usize>,
    slot_count: nat,
    key: Seq<char>,
    kept: int,
) -> usize {
    let all_free = free_before_fill(items, slots, free, key, kept);
    if all_free.len() > 0 {
        all_free.last()
    } else {
        slot_count as usize
    }
}

/// The free slots after a successful store of `key`: the slot it fills is
/// taken off.
pub open spec fn free_after_store(
    items: Seq<Item>,
    slots: Seq<usize>,
    free: Seq<usize>,
    key: Seq<char>,
    kept: int,
) -> Seq<usize> {
    let all_free = free_before_fill(items, slots, free, key, kept);
    if all_free.len() > 0 {
        all_free.drop_last()
    } else {
        all_free
    }
}

/// The number of slots after a successful store of `key`: one more only when
/// no slot was free to fill.
pub open spec fn slot_count_after_store(
    items: Seq<Item>,
    slots: Seq<usize>,
    free: Seq<usize>,
    slot_count: nat,
    key: Seq<char>,
    kept: int,
) -> nat {
    if free_before_fill(items, slots, free, key, kept).len() > 0 {
        slot_count
    } else {
        slot_count + 1
    }
}

/// The slots after removing `key`.
pub open spec fn slots_without_key(items: Seq<Item>, slots: Seq<usize>, key: Seq<char>) -> Seq<usize> {
    if has_key(items, key) {
        slots.remove(key_index(items, key))
    } else {
        slots
    }
}

/// The free slots after removing `key`: its slot is freed last.
pub open spec fn free_without_key(items: Seq<Item>, slots: Seq<usize>, free: Seq<usize>, key: Seq<char>) -> Seq<usize> {
    if has_key(items, key) {
        free.push(slots[key_index(items, key)])
    } else {
        free
    }
}

/// The state of the cache; `order` lists the live slots from the most
/// recently used to the least recently used.
struct CacheState {
    entries: StringHashMap<usize>,
    nodes: Vec<Option<CacheEntry>>,
    free_nodes: Vec<usize>,
    head: Option<usize>,
    tail: Option<usize>,
    current_weight: usize,
    max_cache_weight: Option<usize>,
    order: Ghost<Seq<usize>>,
}

impl CacheState {
    spec fn live(&self, id: int) -> bool {
        0 <= id < self.nodes@.len() && self.nodes@[id] is Some
    }

    spec fn entry(&self, id: int) -> CacheEntry {
        self.nodes@[id]->Some_0
    }

    spec fn item_at(&self, i: int) -> Item {
        (self.entry(self.order@[i] as int).key@, self.entry(self.order@[i] as int).value@)
    }

    spec fn items(&self) -> Seq<Item> {
        Seq::new(self.order@.len(), |i: int| self.item_at(i))
    }

    spec fn weights(&self) -> Seq<usize> {
        Seq::new(self.order@.len(), |i: int| self.entry(self.order@[i] as int).weight)
    }

    spec fn links_ok(&self) -> bool {
        list_linked(self.nodes@, self.order@, self.head, self.tail)
    }

    spec fn free_ok(&self) -> bool {
        free_slots_ok(self.nodes@, self.free_nodes@)
    }

    spec fn accounted(&self) -> bool {
        slots_accounted(self.nodes@, self.order@, self.free_nodes@)
    }

    spec fn weights_ok(&self) -> bool {
        forall|i: int|
            0 <= i < self.order@.len() ==> #[trigger] self.weights()[i] == item_weight(
                self.items()[i],
            )
    }

    spec fn index_ok(&self) -> bool {
        index_matches(self.entries@, self.items(), self.order@)
    }

    /// The representation invariant of the cache.
    spec fn wf(&self) -> bool {
        &&& self.links_ok()
        &&& self.free_ok()
        &&& self.accounted()
        &&& self.weights_ok()
        &&& self.index_ok()
        &&& self.current_weight == total_weight(self.items())
        &&& valid_items(self.items(), self.max_cache_weight)
    }

    /// The listed slots are live and distinct.
    proof fn lemma_order_live(&self)
        requires
            self.links_ok(),
        ensures
            self.order@.no_duplicates(),
            forall|i: int|
                #![trigger self.order@[i]]
                0 <= i < self.order@.len() ==> self.live(self.order@[i] as int),
            self.head == (if self.order@.len() == 0 {
                None
            } else {
                Some(self.order@[0])
            }),
            self.tail == (if self.order@.len() == 0 {
                None
            } else {
                Some(self.order@.last())
            }),
    {
        reveal(list_linked);
    }

    /// Where `key` sits, when the index holds it.
    proof fn lemma_index_lookup(&self, key: Seq<char>)
        requires
            self.wf(),
        ensures
            self.entries@.contains_key(key) == has_key(self.items(), key),
            has_key(self.items(), key) ==> {
                let i = key_index(self.items(), key);
                &&& 0 <= i < self.items().len()
                &&& self.items()[i].0 == key
                &&& self.entries@[key] == self.order@[i]
                &&& self.order@.index_of(self.order@[i]) == i
                &&& self.order@.contains(self.order@[i])
            },
    {
        reveal(index_matches);
        let items = self.items();
        self.lemma_order_live();
        if has_key(items, key) {
            let i = choose|i: int| 0 <= i < items.len() && items[i].0 == key;
            lemma_key_index(items, key, i);
            assert(items[i].0 == key);
            let ord = self.order@;
            assert(ord[ord.index_of(ord[i])] == ord[i]);
        }
    }

    /// An empty cache, bounded by `max_cache_weight` when given.
    fn empty(max_cache_weight: Option<usize>) -> (state: Self)
        ensures
            state.wf(),
            state.items() == Seq::<Item>::empty(),
            state.max_cache_weight == max_cache_weight,
            state.order@ == Seq::<usize>::empty(),
            state.free_nodes@ == Seq::<usize>::empty(),
            state.nodes@.len() == 0,
    {
        reveal(index_matches);
        reveal(list_linked);
        reveal(free_slots_ok);
        reveal(slots_accounted);
        let state = CacheState {
            entries: StringHashMap::new(),
            nodes: Vec::new(),
            free_nodes: Vec::new(),
            head: None,
            tail: None,
            current_weight: 0,
            max_cache_weight,
            order: Ghost(Seq::empty()),
        };
        proof {
            assert(state.items() =~= Seq::<Item>::empty());
            assert(total_weight(state.items()) == 0);
        }
        state
    }

    /// Reads the value under `key` and makes it the most recently used.
    fn get(&mut self, key: &str) -> (r: Result<Vec<u8>, Error>)
        requires
            old(self).wf(),
        ensures
            final(self).wf(),
            final(self).max_cache_weight == old(self).max_cache_weight,
            final(self).nodes@.len() == old(self).nodes@.len(),
            final(self).free_nodes == old(self).free_nodes,
            match r {
                Ok(v) => {
                    &&& has_key(old(self).items(), key@)
                    &&& lookup(old(self).items(), key@) == Some(v@)
                    &&& final(self).items() == touched(old(self).items(), key@)
                    &&& final(self).order@ == seq![
                        old(self).order@[key_index(old(self).items(), key@)],
                    ] + old(self).order@.remove(key_index(old(self).items(), key@))
                },
                Err(e) => {
                    &&& !has_key(old(self).items(), key@)
                    &&& e@ == ErrorView::Custom(not_found_message())
                    &&& final(self).items() == old(self).items()
                    &&& final(self).order == old(self).order
                },
            },
    {
        proof { self.lemma_order_live(); }
        proof {
            self.lemma_index_lookup(key@);
        }
        let node_id = match self.entries.get(key) {
            Some(node_id) => *node_id,
            None => {
                return Err(Error::Custom(String::from_str("Value not found")));
            },
        };
        let ghost items = self.items();
        let ghost weights = self.weights();
        let ghost ord = self.order@;
        let ghost i = key_index(items, key@);
        let ghost nodes0 = self.nodes@;
        let value = self.node(node_id).value.clone();
        proof {
            assert(value@ =~= items[i].1);
        }
        self.move_to_head(node_id);
        proof {
            self.lemma_order_live();
            assert forall|j: int| #![trigger self.nodes@[j]] 0 <= j < nodes0.len()
                implies (nodes0[j] is Some <==> self.nodes@[j] is Some) by {
                assert(nodes0[j] is Some <==> self.nodes@[j] is Some);
            }
            lemma_accounted_move_front(nodes0, self.nodes@, ord, self.free_nodes@, i);
            let item = items[i];
            assert(self.items() =~= seq![item] + items.remove(i));
            assert(self.weights() =~= seq![weights[i]] + weights.remove(i));
            lemma_move_front(self.entries@, items, weights, ord, i);
        }
        Ok(value)
    }

    /// Stores `value` under `key`, or removes `key` when `val` is `None`.
    fn set(&mut self, key: String, val: Option<Vec<u8>>) -> (r: Result<(), Error>)
        requires
            old(self).wf(),
        ensures
            final(self).wf(),
            final(self).max_cache_weight == old(self).max_cache_weight,
            match val {
                Some(value) => match store_outcome(
                    old(self).items(),
                    old(self).max_cache_weight,
                    key@,
                    value@,
                ) {
                    Ok(items) => r is Ok && final(self).items() == items,
                    Err(ev) => (r matches Err(e) && e@ == ev) && final(self).items() == old(
                        self,
                    ).items(),
                },
                None => r is Ok && final(self).items() == without_key(old(self).items(), key@),
            },
            val is Some && r is Ok ==> {
                &&& final(self).order@.len() > 0
                &&& final(self).order@[0] == store_slot(
                    old(self).items(),
                    old(self).order@,
                    old(self).free_nodes@,
                    old(self).nodes@.len(),
                    key@,
                    final(self).items().len() - 1,
                )
                &&& final(self).free_nodes@ == free_after_store(
                    old(self).items(),
                    old(self).order@,
                    old(self).free_nodes@,
                    key@,
                    final(self).items().len() - 1,
                )
                &&& final(self).nodes@.len() == slot_count_after_store(
                    old(self).items(),
                    old(self).order@,
                    old(self).free_nodes@,
                    old(self).nodes@.len(),
                    key@,
                    final(self).items().len() - 1,
                )
            },
            r is Err ==> final(self).order == old(self).order && final(self).free_nodes
                == old(self).free_nodes && final(self).nodes@.len() == old(self).nodes@.len(),
            val is None ==> final(self).order@ == slots_without_key(
                old(self).items(),
                old(self).order@,
                key@,
            ) && final(self).free_nodes@ == free_without_key(
                old(self).items(),
                old(self).order@,
                old(self).free_nodes@,
                key@,
            ) && final(self).nodes@.len() == old(self).nodes@.len(),
    {
        proof {
            self.lemma_index_lookup(key@);
            lemma_without_key(self.items(), key@);
        }
        match val {
            Some(value) => {
                let weight = match DregStore::entry_weight(key.as_str(), value.as_slice()) {
                    Ok(weight) => weight,
                    Err(e) => return Err(e),
                };
                match self.reject_if_entry_too_large(weight) {
                    Ok(()) => {},
                    Err(e) => return Err(e),
                }
                let existing_node_id = match self.entries.get(key.as_str()) {
                    Some(node_id) => Some(*node_id),
                    None => None,
                };
                match self.reject_if_unbounded_total_weight_untrackable(weight, existing_node_id) {
                    Ok(()) => {},
                    Err(e) => return Err(e),
                }
                let ghost items = self.items();
                let ghost rest = without_key(items, key@);
                let ghost ord0 = self.order@;
                let ghost free0 = self.free_nodes@;
                let ghost n0 = self.nodes@.len();
                if let Some(node_id) = existing_node_id {
                    let ghost ord = self.order@;
                    let ghost i = key_index(items, key@);
                    self.entries.remove(key.as_str());
                    let ghost mid_entries = self.entries@;
                    proof {
                        assert(self.items() =~= items);
                        assert(self.weights() =~= old(self).weights());
                    }
                    self.remove_entry_by_id(node_id);
                    proof {
                        lemma_removal_keeps_valid(old(self).entries@, items, ord, i, self.max_cache_weight);
                        assert(self.entries@ == mid_entries);
                    }
                }
                assert(self.items() == rest);
                let ghost ord1 = self.order@;
                let ghost free1 = self.free_nodes@;
                proof {
                    assert(ord1 == slots_without_key(items, ord0, key@));
                    assert(free1 == free_without_key(items, ord0, free0, key@));
                    assert(self.nodes@.len() == n0);
                }
                match self.ensure_capacity_for(weight) {
                    Ok(()) => {},
                    Err(e) => return Err(e),
                }
                let ghost kept = self.items();
                proof {
                    let k = kept.len() as int;
                    assert(self.order@ == ord1.subrange(0, k)) by {
                        if self.max_cache_weight is None {
                            assert(ord1.subrange(0, ord1.len() as int) =~= ord1);
                        }
                    }
                    assert(self.free_nodes@ =~= free0 + (if has_key(items, key@) {
                        seq![ord0[key_index(items, key@)]]
                    } else {
                        Seq::<usize>::empty()
                    }) + ord1.subrange(k, ord1.len() as int).reverse()) by {
                        if self.max_cache_weight is None {
                            assert(ord1.subrange(ord1.len() as int, ord1.len() as int).reverse() =~= Seq::<usize>::empty());
                        }
                    }
                }
                proof {
                    if let Some(max) = self.max_cache_weight {
                        lemma_evicted_prefix(rest, weight as nat, max as nat);
                        lemma_prefix_distinct(rest, kept.len() as int);
                    }
                }
                match self.insert_entry(key, value, weight) {
                    Ok(()) => {},
                    Err(e) => return Err(e),
                }
            },
            None => {
                if self.entries.contains_key(key.as_str()) {
                    let node_id = *self.entries.get(key.as_str()).unwrap();
                    let ghost items = self.items();
                    assert(self.order@[key_index(items, key@)] == node_id);
                    let ghost ord = self.order@;
                    let ghost i = key_index(items, key@);
                    self.entries.remove(key.as_str());
                    let ghost mid_entries = self.entries@;
                    proof {
                        assert(self.items() =~= items);
                        assert(self.weights() =~= old(self).weights());
                    }
                    self.remove_entry_by_id(node_id);
                    proof {
                        lemma_removal_keeps_valid(old(self).entries@, items, ord, i, self.max_cache_weight);
                        assert(self.entries@ == mid_entries);
                    }
                }
            },
        }
        Ok(())
    }

    /// Refuses an entry that weighs more than the whole cache may hold.
    fn reject_if_entry_too_large(&self, incoming_weight: usize) -> (r: Result<(), Error>)
        ensures
            match self.max_cache_weight {
                Some(max) => if incoming_weight > max {
                    r matches Err(e) && e@ == ErrorView::CacheEntryTooLarge(
                        too_large_message(incoming_weight as nat, max as nat),
                    )
                } else {
                    r is Ok
                },
                None => r is Ok,
            },
    {
        let max_cache_weight = match self.max_cache_weight {
            Some(max) => max,
            None => return Ok(()),
        };
        if incoming_weight > max_cache_weight {
            let message = append_str(
                append_str(
                    append_str(
                        String::from_str("Cache entry weight "),
                        decimal_string(incoming_weight as u64).as_str(),
                    ),
                    " exceeds maximum cache weight ",
                ),
                decimal_string(max_cache_weight as u64).as_str(),
            );
            return Err(Error::CacheEntryTooLarge(message));
        }
        Ok(())
    }

    /// Without a limit, refuses an entry whose weight, added to what the cache
    /// would hold once the replaced entry is gone, does not fit in `usize`.
    fn reject_if_unbounded_total_weight_untrackable(
        &self,
        incoming_weight: usize,
        replacing_node_id: Option<usize>,
    ) -> (r: Result<(), Error>)
        requires
            self.wf(),
            replacing_node_id matches Some(id) ==> self.order@.contains(id),
        ensures
            ({
                let base = match replacing_node_id {
                    Some(id) => total_weight(self.items().remove(self.order@.index_of(id))),
                    None => total_weight(self.items()),
                };
                if self.max_cache_weight is None && base + incoming_weight > usize::MAX {
                    r matches Err(e) && e@ == ErrorView::Custom(total_weight_overflow_message())
                } else {
                    r is Ok
                }
            }),
    {
        proof { self.lemma_order_live(); }
        if self.max_cache_weight.is_some() {
            return Ok(());
        }
        let current_weight = match replacing_node_id {
            Some(node_id) => {
                proof {
                    let i = self.order@.index_of(node_id);
                    assert(self.weights()[i] == item_weight(self.items()[i]));
                    lemma_total_remove(self.items(), i);
                }
                self.current_weight - self.node(node_id).weight
            },
            None => self.current_weight,
        };
        match current_weight.checked_add(incoming_weight) {
            Some(_) => Ok(()),
            None => Err(Error::Custom(String::from_str("Cache weight overflowed usize"))),
        }
    }

    /// Evicts least recently used entries until `incoming_weight` more fits.
    fn ensure_capacity_for(&mut self, incoming_weight: usize) -> (r: Result<(), Error>)
        requires
            old(self).wf(),
        ensures
            final(self).wf(),
            final(self).max_cache_weight == old(self).max_cache_weight,
            final(self).nodes@.len() == old(self).nodes@.len(),
            match old(self).max_cache_weight {
                None => r is Ok && final(self).items() == old(self).items() && final(self).order
                    == old(self).order && final(self).free_nodes == old(self).free_nodes,
                Some(max) => {
                    let kept = evicted_to_fit(old(self).items(), incoming_weight as nat, max as nat);
                    &&& final(self).items() == kept
                    &&& final(self).order@ == old(self).order@.subrange(0, kept.len() as int)
                    &&& final(self).free_nodes@ == old(self).free_nodes@ + old(self).order@.subrange(
                        kept.len() as int,
                        old(self).order@.len() as int,
                    ).reverse()
                    &&& (incoming_weight <= max ==> r is Ok)
                    &&& (incoming_weight > max ==> (r matches Err(e) && e@ == ErrorView::Custom(
                        nothing_to_evict_message(),
                    )))
                },
            },
    {
        let max_cache_weight = match self.max_cache_weight {
            Some(max) => max,
            None => return Ok(()),
        };
        let ghost target = evicted_to_fit(self.items(), incoming_weight as nat, max_cache_weight as nat);
        let ghost ord0 = self.order@;
        let ghost free0 = self.free_nodes@;
        proof {
            lemma_evicted_prefix(self.items(), incoming_weight as nat, max_cache_weight as nat);
            assert(ord0.subrange(0, ord0.len() as int) =~= ord0);
            assert(ord0.subrange(ord0.len() as int, ord0.len() as int).reverse() =~= Seq::<usize>::empty());
            assert(free0 + Seq::<usize>::empty() =~= free0);
        }
        loop
            invariant
                self.wf(),
                self.max_cache_weight == Some(max_cache_weight),
                old(self).max_cache_weight == Some(max_cache_weight),
                target == evicted_to_fit(old(self).items(), incoming_weight as nat, max_cache_weight as nat),
                ord0 == old(self).order@,
                free0 == old(self).free_nodes@,
                self.nodes@.len() == old(self).nodes@.len(),
                evicted_to_fit(self.items(), incoming_weight as nat, max_cache_weight as nat)
                    == target,
                target.len() <= self.items().len(),
                self.order@.len() <= ord0.len(),
                self.order@ == ord0.subrange(0, self.order@.len() as int),
                self.free_nodes@ == free0 + ord0.subrange(
                    self.order@.len() as int,
                    ord0.len() as int,
                ).reverse(),
            decreases self.order@.len(),
        {
            let fits = match self.current_weight.checked_add(incoming_weight) {
                Some(weight) => weight <= max_cache_weight,
                None => false,
            };
            if fits {
                proof {
                    assert(evicted_to_fit(self.items(), incoming_weight as nat, max_cache_weight as nat)
                        == self.items());
                    assert(self.order@.len() == target.len());
                }
                return Ok(());
            }
            let ghost before = self.items();
            let ghost ord_before = self.order@;
            let ghost free_before = self.free_nodes@;
            match self.evict_lru_entry() {
                Ok(()) => {},
                Err(e) => {
                    proof {
                        assert(before.len() == 0);
                        assert(target == before);
                    }
                    return Err(e);
                },
            }
            proof {
                let n = ord_before.len() as int;
                assert(self.order@ =~= ord0.subrange(0, n - 1));
                assert(ord0.subrange(n - 1, ord0.len() as int) =~= seq![ord0[n - 1]] + ord0.subrange(n, ord0.len() as int));
                assert(ord0.subrange(n - 1, ord0.len() as int).reverse() =~= ord0.subrange(n, ord0.len() as int).reverse().push(ord0[n - 1]));
                assert(ord_before.last() == ord0[n - 1]);
                assert(self.free_nodes@ =~= free0 + ord0.subrange(n - 1, ord0.len() as int).reverse());
                lemma_evicted_prefix(self.items(), incoming_weight as nat, max_cache_weight as nat);
            }
        }
    }

    /// Drops the least recently used entry.
    fn evict_lru_entry(&mut self) -> (r: Result<(), Error>)
        requires
            old(self).wf(),
        ensures
            final(self).wf(),
            final(self).max_cache_weight == old(self).max_cache_weight,
            final(self).nodes@.len() == old(self).nodes@.len(),
            old(self).items().len() == 0 ==> {
                &&& r matches Err(e) && e@ == ErrorView::Custom(nothing_to_evict_message())
                &&& final(self).items() == old(self).items()
                &&& final(self).order == old(self).order
                &&& final(self).free_nodes == old(self).free_nodes
            },
            old(self).items().len() > 0 ==> {
                &&& r is Ok
                &&& final(self).items() == old(self).items().drop_last()
                &&& final(self).order@ == old(self).order@.drop_last()
                &&& final(self).free_nodes@ == old(self).free_nodes@.push(old(self).order@.last())
            },
    {
        proof { self.lemma_order_live(); }
        let node_id = match self.tail {
            Some(node_id) => node_id,
            None => {
                return Err(
                    Error::Custom(
                        String::from_str(
                            "Cache has no entries to evict, but capacity is still exceeded",
                        ),
                    ),
                );
            },
        };
        let ghost ord = self.order@;
        let ghost items = self.items();
        proof {
            let last = ord.len() - 1;
            assert(ord[last] == node_id);
            assert(ord.index_of(node_id) == last);
            assert(items[last].0 == self.entry(node_id as int).key@);
        }
        let entry = self.remove_entry_by_id(node_id);
        let ghost mid_weights = self.weights();
        let ghost mid_items = self.items();
        self.entries.remove(entry.key.as_str());
        proof {
            assert(self.weights() =~= mid_weights);
            assert(self.items() =~= mid_items);
            let last = ord.len() - 1;
            assert(items.remove(last) =~= items.drop_last());
            assert(ord.remove(last) =~= ord.drop_last());
            lemma_index_remove(old(self).entries@, items, ord, last);
            lemma_remove_distinct(items, last);
            lemma_total_remove(items, last);
            assert(self.entries@ == old(self).entries@.remove(items[last].0));
            assert(self.items() == items.remove(last));
            assert(self.index_ok());
            assert(valid_items(self.items(), self.max_cache_weight));
        }
        Ok(())
    }

    /// Stores a new entry in front of the recency list.
    fn insert_entry(&mut self, key: String, value: Vec<u8>, weight: usize) -> (r: Result<(), Error>)
        requires
            old(self).wf(),
            !has_key(old(self).items(), key@),
        ensures
            final(self).max_cache_weight == old(self).max_cache_weight,
            old(self).current_weight + weight > usize::MAX ==> {
                &&& r matches Err(e) && e@ == ErrorView::Custom(total_weight_overflow_message())
                &&& *final(self) == *old(self)
            },
            old(self).current_weight + weight <= usize::MAX ==> {
                &&& r is Ok
                &&& final(self).items() == seq![(key@, value@)] + old(self).items()
                &&& final(self).weights() == seq![weight] + old(self).weights()
                &&& final(self).current_weight == old(self).current_weight + weight
                &&& final(self).entries@ == old(self).entries@.insert(key@, final(self).order@[0])
                &&& final(self).order@ == seq![
                    (if old(self).free_nodes@.len() > 0 {
                        old(self).free_nodes@.last()
                    } else {
                        old(self).nodes@.len() as usize
                    }),
                ] + old(self).order@
                &&& final(self).free_nodes@ == (if old(self).free_nodes@.len() > 0 {
                    old(self).free_nodes@.drop_last()
                } else {
                    old(self).free_nodes@
                })
                &&& final(self).nodes@.len() == old(self).nodes@.len() + (if old(
                    self,
                ).free_nodes@.len() > 0 {
                    0int
                } else {
                    1int
                })
                &&& final(self).links_ok()
                &&& final(self).free_ok()
                &&& final(self).accounted()
                &&& final(self).index_ok()
                &&& distinct_keys(final(self).items())
            },
            // The store keeps its invariant when it is charged the entry's own
            // weight and, under a limit, that weight fits.
            weight == entry_weight(key@, value@) && (old(self).max_cache_weight matches Some(max)
                ==> old(self).current_weight + weight <= max) ==> final(self).wf(),
    {
        proof { self.lemma_order_live(); }
        let new_weight = match self.current_weight.checked_add(weight) {
            Some(new_weight) => new_weight,
            None => {
                return Err(Error::Custom(String::from_str("Cache weight overflowed usize")));
            },
        };
        let ghost items = self.items();
        let ghost weights = self.weights();
        let ghost ord = self.order@;
        let ghost nodes0 = self.nodes@;
        let ghost free0 = self.free_nodes@;
        proof {
            assert(nodes0.len() == self.nodes.len());
            assert forall|j: int| 0 <= j < ord.len() implies 0 <= #[trigger] ord[j] < nodes0.len() by {
                assert(self.live(self.order@[j] as int));
            }
        }
        let map_key = key.clone();
        let node_id = self.allocate_node(
            CacheEntry { key, value, weight, prev: None, next: None },
        );
        proof {
            self.lemma_order_live();
            assert(free0.len() > 0 ==> node_id == free0.last());
            assert forall|j: int| 0 <= j < ord.len() implies #[trigger] self.nodes@[ord[j] as int] == nodes0[ord[j] as int] by {
                assert(ord[j] != node_id);
                assert(0 <= ord[j] < nodes0.len());
            }
            assert(self.items() =~= items);
            assert(self.weights() =~= weights);
        }
        let ghost nodes1 = self.nodes@;
        self.insert_at_head(node_id);
        self.entries.insert(map_key, node_id);
        self.current_weight = new_weight;
        proof {
            reveal(free_slots_ok);
            assert forall|j: int| #![trigger self.nodes@[j]] 0 <= j < nodes0.len() && j != node_id
                implies (self.nodes@[j] is Some <==> nodes0[j] is Some) by {
                assert(nodes1[j] is Some <==> self.nodes@[j] is Some);
                assert(nodes1[j] == nodes0[j]);
            }
            assert(nodes1[node_id as int] is Some <==> self.nodes@[node_id as int] is Some);
            assert(nodes1.len() == self.nodes@.len());
            assert(free0.len() == 0 ==> nodes1.len() == nodes0.len() + 1);
            lemma_accounted_insert(nodes0, self.nodes@, ord, free0, node_id);
            let item = (key@, value@);
            assert(self.items() =~= seq![item] + items);
            assert(self.weights() =~= seq![weight] + weights);
            if weight == entry_weight(key@, value@) {
                assert forall|i: int| 0 <= i < self.order@.len() implies #[trigger] self.weights()[i]
                    == item_weight(self.items()[i]) by {
                    if i > 0 {
                        assert(weights[i - 1] == item_weight(items[i - 1]));
                    }
                }
            }
            lemma_index_prepend(old(self).entries@, items, ord, item, node_id);
            lemma_prepend_distinct(item, items);
            lemma_total_prepend(item, items);
        }
        Ok(())
    }

    /// Unlinks a live slot and frees it, releasing its weight.
    fn remove_entry_by_id(&mut self, node_id: usize) -> (entry: CacheEntry)
        requires
            old(self).links_ok(),
            old(self).free_ok(),
            old(self).weights_ok(),
            old(self).current_weight == total_weight(old(self).items()),
            old(self).accounted(),
            old(self).order@.contains(node_id),
        ensures
            final(self).accounted(),
            ({
                let i = old(self).order@.index_of(node_id);
                &&& final(self).order@ == old(self).order@.remove(i)
                &&& final(self).items() == old(self).items().remove(i)
                &&& final(self).weights() == old(self).weights().remove(i)
                &&& entry.key@ == old(self).items()[i].0
                &&& entry.value@ == old(self).items()[i].1
                &&& entry.weight == old(self).weights()[i]
            }),
            final(self).links_ok(),
            final(self).free_ok(),
            final(self).weights_ok(),
            final(self).current_weight == total_weight(final(self).items()),
            final(self).free_nodes@ == old(self).free_nodes@.push(node_id),
            final(self).nodes@.len() == old(self).nodes@.len(),
            final(self).entries == old(self).entries,
            final(self).max_cache_weight == old(self).max_cache_weight,
    {
        proof { self.lemma_order_live(); }
        let ghost ord = self.order@;
        let ghost i = ord.index_of(node_id);
        let ghost old_items = self.items();
        let ghost old_weights = self.weights();
        let ghost old_nodes = self.nodes@;
        proof {
            assert(old_weights[i] == item_weight(old_items[i]));
            lemma_total_remove(old_items, i);
        }
        self.detach_node(node_id);
        let ghost mid_nodes = self.nodes@;
        proof {
            self.lemma_order_live();
            let nord = self.order@;
            assert forall|j: int| 0 <= j < nord.len() implies nord[j] != node_id by {
                if j < i { assert(nord[j] == ord[j]); } else { assert(nord[j] == ord[j + 1]); }
            }
        }
        let entry = self.remove_node(node_id);
        self.current_weight = self.current_weight - entry.weight;
        proof {
            self.lemma_order_live();
            let nord = self.order@;
            assert forall|j: int| 0 <= j < nord.len() implies #[trigger] self.nodes@[nord[j] as int]
                == mid_nodes[nord[j] as int] && nord[j] == (if j < i { ord[j] } else { ord[j + 1] }) by {
                if j < i { assert(nord[j] == ord[j]); } else { assert(nord[j] == ord[j + 1]); }
            }
            assert(self.items() =~= old_items.remove(i));
            assert(self.weights() =~= old_weights.remove(i));
            assert forall|j: int| 0 <= j < nord.len() implies #[trigger] self.weights()[j]
                == item_weight(self.items()[j]) by {
                if j < i {
                    assert(old_weights[j] == item_weight(old_items[j]));
                } else {
                    assert(old_weights[j + 1] == item_weight(old_items[j + 1]));
                }
            }
            assert(ord[i] == node_id);
            assert forall|j: int| #![trigger self.nodes@[j]] 0 <= j < old_nodes.len() && j != ord[i]
                implies (self.nodes@[j] is Some <==> old_nodes[j] is Some) by {
                assert(mid_nodes[j] is Some <==> old_nodes[j] is Some);
            }
            lemma_accounted_remove(old_nodes, self.nodes@, ord, old(self).free_nodes@, i);
        }
        entry
    }

    /// Puts `entry` into a free slot, the most recently freed one, or into a
    /// new slot when none is free.
    fn allocate_node(&mut self, entry: CacheEntry) -> (node_id: usize)
        requires
            old(self).links_ok(),
            old(self).free_ok(),
        ensures
            node_id == (if old(self).free_nodes@.len() > 0 {
                old(self).free_nodes@.last()
            } else {
                old(self).nodes@.len() as usize
            }),
            final(self).free_nodes@ == (if old(self).free_nodes@.len() > 0 {
                old(self).free_nodes@.drop_last()
            } else {
                old(self).free_nodes@
            }),
            old(self).free_nodes@.len() > 0 ==> final(self).nodes@ == old(self).nodes@.update(
                node_id as int,
                Some(entry),
            ),
            old(self).free_nodes@.len() == 0 ==> final(self).nodes@ == old(self).nodes@.push(
                Some(entry),
            ),
            !old(self).order@.contains(node_id),
            old(self).free_nodes@.len() > 0 ==> node_id < old(self).nodes@.len(),
            final(self).live(node_id as int),
            final(self).entry(node_id as int) == entry,
            final(self).links_ok(),
            final(self).free_ok(),
            final(self).order == old(self).order,
            final(self).entries == old(self).entries,
            final(self).current_weight == old(self).current_weight,
            final(self).max_cache_weight == old(self).max_cache_weight,
    {
        reveal(list_linked);
        reveal(free_slots_ok);
        let ghost ord = self.order@;
        let ghost old_free = self.free_nodes@;
        let node_id = match self.free_nodes.pop() {
            Some(node_id) => {
                assert(old_free[old_free.len() - 1] == node_id);
                self.nodes.set(node_id, Some(entry));
                node_id
            },
            None => {
                let node_id = self.nodes.len();
                self.nodes.push(Some(entry));
                node_id
            },
        };
        proof {
            assert forall|i: int| 0 <= i < ord.len() implies ord[i] != node_id by {
                assert(self.live(ord[i] as int) || !old(self).live(ord[i] as int));
            }
            assert forall|i: int| #![trigger ord[i]] 0 <= i < ord.len() implies self.live(ord[i] as int)
                && self.entry(ord[i] as int) == old(self).entry(ord[i] as int) by {
                assert(old(self).live(ord[i] as int));
            }
            let free = self.free_nodes@;
            assert forall|j: int| #![trigger free[j]] 0 <= j < free.len() implies free[j]
                < self.nodes@.len() && self.nodes@[free[j] as int] is None by {
                assert(free[j] == old_free[j]);
                assert(free[j] != node_id);
            }
        }
        node_id
    }

    /// Takes the entry out of an unlinked slot and records the slot as free.
    fn remove_node(&mut self, node_id: usize) -> (entry: CacheEntry)
        requires
            old(self).live(node_id as int),
            !old(self).order@.contains(node_id),
            old(self).links_ok(),
            old(self).free_ok(),
        ensures
            entry == old(self).entry(node_id as int),
            final(self).nodes@ == old(self).nodes@.update(node_id as int, None),
            final(self).free_nodes@ == old(self).free_nodes@.push(node_id),
            final(self).links_ok(),
            final(self).free_ok(),
            final(self).order == old(self).order,
            final(self).entries == old(self).entries,
            final(self).current_weight == old(self).current_weight,
            final(self).max_cache_weight == old(self).max_cache_weight,
    {
        reveal(list_linked);
        reveal(free_slots_ok);
        let entry = self.nodes[node_id].take().unwrap();
        self.free_nodes.push(node_id);
        proof {
            let ord = self.order@;
            assert forall|i: int| #![trigger ord[i]] 0 <= i < ord.len() implies ord[i] != node_id by {}
            let free = self.free_nodes@;
            assert forall|a: int, b: int| 0 <= a < free.len() && 0 <= b < free.len() && a != b
                implies free[a] != free[b] by {
                let of = old(self).free_nodes@;
                if a < of.len() && b < of.len() {
                    assert(free[a] == of[a]);
                    assert(free[b] == of[b]);
                } else if a < of.len() {
                    assert(free[a] == of[a]);
                } else {
                    assert(free[b] == of[b]);
                }
            }
            assert forall|j: int| #![trigger free[j]] 0 <= j < free.len() implies free[j]
                < self.nodes@.len() && self.nodes@[free[j] as int] is None by {
                if j < free.len() - 1 {
                    assert(free[j] == old(self).free_nodes@[j]);
                }
            }
        }
        entry
    }

    /// Makes a linked slot the most recently used one.
    fn move_to_head(&mut self, node_id: usize)
        requires
            old(self).free_ok(),
            old(self).links_ok(),
            old(self).order@.contains(node_id),
        ensures
            final(self).free_ok(),
            final(self).links_ok(),
            final(self).order@ == seq![node_id] + old(self).order@.remove(
                old(self).order@.index_of(node_id),
            ),
            same_payloads(old(self).nodes@, final(self).nodes@),
            final(self).entries == old(self).entries,
            final(self).free_nodes == old(self).free_nodes,
            final(self).current_weight == old(self).current_weight,
            final(self).max_cache_weight == old(self).max_cache_weight,
    {
        proof {
            self.lemma_order_live();
        }
        if self.head == Some(node_id) {
            proof {
                let ord = self.order@;
                assert(ord.index_of(node_id) == 0);
                assert(seq![node_id] + ord.remove(0) =~= ord);
            }
            return;
        }
        self.detach_node(node_id);
        proof {
            self.lemma_order_live();
            let ord = old(self).order@;
            let i = ord.index_of(node_id);
            assert forall|j: int| 0 <= j < self.order@.len() implies self.order@[j] != node_id by {
                if j < i { assert(self.order@[j] == ord[j]); } else { assert(self.order@[j] == ord[j + 1]); }
            }
        }
        self.insert_at_head(node_id);
    }

    /// Unlinks a live slot from the recency list; its entry stays in place.
    #[verifier::spinoff_prover]
    #[verifier::rlimit(60)]
    fn detach_node(&mut self, node_id: usize)
        requires
            old(self).free_ok(),
            old(self).links_ok(),
            old(self).order@.contains(node_id),
        ensures
            final(self).free_ok(),
            final(self).links_ok(),
            final(self).order@ == old(self).order@.remove(old(self).order@.index_of(node_id)),
            same_payloads(old(self).nodes@, final(self).nodes@),
            final(self).entry(node_id as int).prev is None,
            final(self).entry(node_id as int).next is None,
            final(self).entries == old(self).entries,
            final(self).free_nodes == old(self).free_nodes,
            final(self).current_weight == old(self).current_weight,
            final(self).max_cache_weight == old(self).max_cache_weight,
    {
        reveal(list_linked);
        reveal(free_slots_ok);
        let ghost ord = self.order@;
        let ghost i = ord.index_of(node_id);
        let ghost old_nodes = self.nodes@;
        let (prev, next) = {
            let entry = self.node(node_id);
            (entry.prev, entry.next)
        };
        match prev {
            Some(prev_id) => {
                assert(ord[i - 1] == prev_id);
                self.node_mut(prev_id).next = next;
            },
            None => self.head = next,
        }
        match next {
            Some(next_id) => {
                assert(ord[i + 1] == next_id);
                self.node_mut(next_id).prev = prev;
            },
            None => self.tail = prev,
        }
        let entry = self.node_mut(node_id);
        entry.prev = None;
        entry.next = None;
        self.order = Ghost(ord.remove(i));
        proof {
            let nord = self.order@;
            assert forall|j: int| #![trigger nord[j]] 0 <= j < nord.len() implies self.live(nord[j] as int)
                && self.entry(nord[j] as int).prev == (if j == 0 { None } else { Some(nord[j - 1]) })
                && self.entry(nord[j] as int).next == (if j == nord.len() - 1 { None } else { Some(nord[j + 1]) })
            by {
                if j < i {
                    assert(nord[j] == ord[j]);
                } else {
                    assert(nord[j] == ord[j + 1]);
                }
                if j > 0 {
                    if j - 1 < i { assert(nord[j - 1] == ord[j - 1]); } else { assert(nord[j - 1] == ord[j]); }
                }
                if j < nord.len() - 1 {
                    if j + 1 < i { assert(nord[j + 1] == ord[j + 1]); } else { assert(nord[j + 1] == ord[j + 2]); }
                }
            }
            assert forall|a: int, b: int| 0 <= a < nord.len() && 0 <= b < nord.len() && a != b
                implies nord[a] != nord[b] by {
                let oa = if a < i { a } else { a + 1 };
                let ob = if b < i { b } else { b + 1 };
                assert(nord[a] == ord[oa]);
                assert(nord[b] == ord[ob]);
            }
            if nord.len() > 0 {
                if i == 0 { assert(nord[0] == ord[1]); } else { assert(nord[0] == ord[0]); }
                if i == ord.len() - 1 { assert(nord.last() == ord[ord.len() - 2]); }
                else { assert(nord.last() == ord.last()); }
            }
        }
    }

    /// Links a live, unlinked slot in front of the recency list.
    fn insert_at_head(&mut self, node_id: usize)
        requires
            old(self).free_ok(),
            old(self).links_ok(),
            old(self).live(node_id as int),
            !old(self).order@.contains(node_id),
        ensures
            final(self).free_ok(),
            final(self).links_ok(),
            final(self).order@ == seq![node_id] + old(self).order@,
            same_payloads(old(self).nodes@, final(self).nodes@),
            final(self).entries == old(self).entries,
            final(self).free_nodes == old(self).free_nodes,
            final(self).current_weight == old(self).current_weight,
            final(self).max_cache_weight == old(self).max_cache_weight,
    {
        reveal(list_linked);
        reveal(free_slots_ok);
        let ghost ord = self.order@;
        let old_head = self.head;
        {
            let entry = self.node_mut(node_id);
            entry.prev = None;
            entry.next = old_head;
        }
        match old_head {
            Some(old_head_id) => self.node_mut(old_head_id).prev = Some(node_id),
            None => self.tail = Some(node_id),
        }
        self.head = Some(node_id);
        self.order = Ghost(seq![node_id] + ord);
        proof {
            let nord = self.order@;
            assert forall|j: int| #![trigger nord[j]] 0 <= j < nord.len() implies self.live(nord[j] as int)
                && self.entry(nord[j] as int).prev == (if j == 0 { None } else { Some(nord[j - 1]) })
                && self.entry(nord[j] as int).next == (if j == nord.len() - 1 { None } else { Some(nord[j + 1]) })
            by {
                if j > 0 {
                    assert(nord[j] == ord[j - 1]);
                    if j > 1 { assert(nord[j - 1] == ord[j - 2]); }
                    if j < nord.len() - 1 { assert(nord[j + 1] == ord[j]); }
                } else {
                    if nord.len() > 1 { assert(nord[1] == ord[0]); }
                }
            }
            assert forall|a: int, b: int| 0 <= a < nord.len() && 0 <= b < nord.len() && a != b
                implies nord[a] != nord[b] by {
                if a > 0 { assert(nord[a] == ord[a - 1]); }
                if b > 0 { assert(nord[b] == ord[b - 1]); }
            }
            if ord.len() > 0 { assert(nord.last() == ord.last()); }
        }
    }

    fn node(&self, node_id: usize) -> (entry: &CacheEntry)
        requires
            self.live(node_id as int),
        ensures
            *entry == self.entry(node_id as int),
    {
        self.nodes[node_id].as_ref().unwrap()
    }

    fn node_mut(&mut self, node_id: usize) -> (entry: &mut CacheEntry)
        requires
            old(self).live(node_id as int),
        ensures
            *entry == old(self).entry(node_id as int),
            final(self).nodes@ == old(self).nodes@.update(node_id as int, Some(*final(entry))),
            final(self).entries == old(self).entries,
            final(self).free_nodes == old(self).free_nodes,
            final(self).head == old(self).head,
            final(self).tail == old(self).tail,
            final(self).current_weight == old(self).current_weight,
            final(self).max_cache_weight == old(self).max_cache_weight,
            final(self).order == old(self).order,
    {
        self.nodes[node_id].as_mut().unwrap()
    }
}

/// A key/value cache that evicts its least recently used entries to stay
/// within an optional maximum weight.
pub struct DregStore {
    state: CacheState,
}

impl DregStore {
    #[verifier::type_invariant]
    spec fn inv(self) -> bool {
        self.state.wf()
    }

    /// The maximum cache weight, if the cache is bounded.
    pub closed spec fn limit(&self) -> Option<usize> {
        self.state.max_cache_weight
    }

    /// The weight an entry for `key` and `value` is charged: key bytes, value
    /// bytes and a fixed overhead; an error when it does not fit in `usize`.
    pub fn entry_weight(key: &str, value: &[u8]) -> (r: Result<usize, Error>)
        ensures
            match r {
                Ok(weight) => weight == entry_weight(key@, value@),
                Err(e) => entry_weight(key@, value@) > usize::MAX && e@ == ErrorView::Custom(
                    entry_weight_overflow_message(),
                ),
            },
            r matches Ok(weight) ==> weight == key.len() + value.len() + 64,
            r is Err ==> key.len() + value.len() + 64 > usize::MAX,
    {
        let key_len = key.len();
        let overflow = Error::Custom(String::from_str("Cache entry weight overflowed usize"));
        match key_len.checked_add(value.len()) {
            Some(weight) => match weight.checked_add(CACHE_ENTRY_OVERHEAD) {
                Some(weight) => Ok(weight),
                None => Err(overflow),
            },
            None => Err(overflow),
        }
    }
}

impl DregStore {
    /// The slots of the cached items, in the order of `self@`.
    pub closed spec fn slots(&self) -> Seq<usize> {
        self.state.order@
    }

    /// The freed slots, reused from the last one freed.
    pub closed spec fn free_slots(&self) -> Seq<usize> {
        self.state.free_nodes@
    }

    /// The number of slots ever allocated.
    pub closed spec fn slot_count(&self) -> nat {
        self.state.nodes@.len()
    }

    /// What every store keeps, whatever was done to it: valid items (distinct
    /// keys, total weight within the limit), one distinct slot per item, and
    /// every slot either holding an item or free, never both. It does nothing
    /// at run time: it hands this invariant to a verified caller that holds a
    /// store.
    pub fn assert_invariant(&self)
        ensures
            valid_items(self@, self.limit()),
            self.slots().len() == self@.len(),
            self.slots().no_duplicates(),
            self.free_slots().no_duplicates(),
            forall|i: usize|
                i < self.slot_count() ==> (self.slots().contains(i) <==> !self.free_slots().contains(
                    i,
                )),
            forall|i: usize|
                self.slots().contains(i) || self.free_slots().contains(i) ==> i < self.slot_count(),
    {
        proof {
            use_type_invariant(self);
            reveal(list_linked);
            reveal(free_slots_ok);
            reveal(slots_accounted);
            let nodes = self.state.nodes@;
            assert forall|i: usize| i < self.slot_count() implies (self.slots().contains(i)
                <==> !self.free_slots().contains(i)) by {
                assert(nodes[i as int] is Some || nodes[i as int] is None);
            }
            assert forall|i: usize| self.slots().contains(i) || self.free_slots().contains(i)
                implies i < self.slot_count() by {
                if self.slots().contains(i) {
                    let k = choose|k: int| 0 <= k < self.slots().len() && self.slots()[k] == i;
                    assert(self.state.order@[k] == i);
                } else {
                    let k = choose|k: int| 0 <= k < self.free_slots().len() && self.free_slots()[k] == i;
                    assert(self.state.free_nodes@[k] == i);
                }
            }
        }
    }

    /// Creates an empty cache, bounded by `max_cache_weight` when given.
    pub fn new(max_cache_weight: Option<usize>) -> (store: Self)
        ensures
            store@ == Seq::<Item>::empty(),
            store.limit() == max_cache_weight,
            store.slots() == Seq::<usize>::empty(),
            store.free_slots() == Seq::<usize>::empty(),
            store.slot_count() == 0,
    {
        DregStore { state: CacheState::empty(max_cache_weight) }
    }

    /// The slot that holds `key`, if it is cached.
    pub fn node_id_of(&self, key: &str) -> (slot: Option<usize>)
        ensures
            slot == (if has_key(self@, key@) {
                Some(self.slots()[key_index(self@, key@)])
            } else {
                None
            }),
    {
        proof {
            use_type_invariant(self);
            self.state.lemma_index_lookup(key@);
        }
        match self.state.entries.get(key) {
            Some(node_id) => Some(*node_id),
            None => None,
        }
    }
}

/// The operations of a key/value store.
pub trait Store: Send + Sync {
    /// Reads the value stored under `key`.
    fn get(&mut self, key: &str) -> Result<Vec<u8>, Error>;

    /// Stores `val` under `key`, or removes `key` when `val` is `None`.
    fn set(&mut self, key: String, val: Option<Vec<u8>>) -> Result<(), Error>;
}

impl Store for DregStore {
    /// Reads the value under `key`; a hit makes it the most recently used.
    fn get(&mut self, key: &str) -> (r: Result<Vec<u8>, Error>)
        ensures
            final(self).limit() == old(self).limit(),
            valid_items(final(self)@, final(self).limit()),
            match r {
                Ok(v) => {
                    &&& lookup(old(self)@, key@) == Some(v@)
                    &&& final(self)@ == touched(old(self)@, key@)
                },
                Err(e) => {
                    &&& lookup(old(self)@, key@) is None
                    &&& e@ == ErrorView::Custom(not_found_message())
                    &&& final(self)@ == old(self)@
                },
            },
            final(self)@ == apply_op(old(self)@, old(self).limit(), CacheOp::Read(key@)),
            final(self).slots().len() == final(self)@.len(),
            final(self).free_slots() == old(self).free_slots(),
            final(self).slot_count() == old(self).slot_count(),
            r is Ok ==> final(self).slots() == seq![old(self).slots()[key_index(old(self)@, key@)]]
                + old(self).slots().remove(key_index(old(self)@, key@)),
            r is Err ==> final(self).slots() == old(self).slots(),
    {
        proof {
            use_type_invariant(&*self);
        }
        let mut state = CacheState::empty(self.state.max_cache_weight);
        std::mem::swap(&mut state, &mut self.state);
        let r = state.get(key);
        self.state = state;
        r
    }

    /// Stores `value` under `key`, evicting least recently used entries to stay
    /// within the limit, or removes `key` when `val` is `None`.
    fn set(&mut self, key: String, val: Option<Vec<u8>>) -> (r: Result<(), Error>)
        ensures
            final(self).limit() == old(self).limit(),
            valid_items(final(self)@, final(self).limit()),
            match val {
                Some(value) => match store_outcome(old(self)@, old(self).limit(), key@, value@) {
                    Ok(items) => r is Ok && final(self)@ == items,
                    Err(ev) => (r matches Err(e) && e@ == ev) && final(self)@ == old(self)@,
                },
                None => r is Ok && final(self)@ == without_key(old(self)@, key@),
            },
            final(self)@ == apply_op(
                old(self)@,
                old(self).limit(),
                match val {
                    Some(value) => CacheOp::Store(key@, value@),
                    None => CacheOp::Remove(key@),
                },
            ),
            final(self).slots().len() == final(self)@.len(),
            val is Some && r is Ok ==> {
                &&& final(self).slots()[0] == store_slot(
                    old(self)@,
                    old(self).slots(),
                    old(self).free_slots(),
                    old(self).slot_count(),
                    key@,
                    final(self)@.len() - 1,
                )
                &&& final(self).free_slots() == free_after_store(
                    old(self)@,
                    old(self).slots(),
                    old(self).free_slots(),
                    key@,
                    final(self)@.len() - 1,
                )
                &&& final(self).slot_count() == slot_count_after_store(
                    old(self)@,
                    old(self).slots(),
                    old(self).free_slots(),
                    old(self).slot_count(),
                    key@,
                    final(self)@.len() - 1,
                )
            },
            r is Err ==> final(self).slots() == old(self).slots() && final(self).free_slots()
                == old(self).free_slots() && final(self).slot_count() == old(self).slot_count(),
            val is None ==> final(self).slots() == slots_without_key(old(self)@, old(self).slots(), key@)
                && final(self).free_slots() == free_without_key(
                old(self)@,
                old(self).slots(),
                old(self).free_slots(),
                key@,
            ) && final(self).slot_count() == old(self).slot_count(),
    {
        proof {
            use_type_invariant(&*self);
        }
        let mut state = CacheState::empty(self.state.max_cache_weight);
        std::mem::swap(&mut state, &mut self.state);
        let r = state.set(key, val);
        self.state = state;
        r
    }
}

/// An unbounded store.
pub fn make_store() -> (store: DregStore)
    ensures
        store@ == Seq::<Item>::empty(),
        store.limit() is None,
{
    make_store_with_max_cache_weight(None)
}

/// A store bounded by `max_cache_weight` when given.
pub fn make_store_with_max_cache_weight(max_cache_weight: Option<usize>) -> (store: DregStore)
    ensures
        store@ == Seq::<Item>::empty(),
        store.limit() == max_cache_weight,
{
    DregStore::new(max_cache_weight)
}

impl View for DregStore {
    type V = Seq<Item>;

    /// The cached items, from the most recently used to the least recently used.
    closed spec fn view(&self) -> Seq<Item> {
        self.state.items()
    }
}

} // verus!
