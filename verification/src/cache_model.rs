//! The abstract model of the weighted LRU cache: a sequence of key/value
//! items ordered from the most recently used to the least recently used, and
//! what each operation of the store does to it.
use vstd::prelude::*;
use vstd::utf8::*;

use crate::errors::ErrorView;
use crate::text::decimal_chars;

verus! {

/// Fixed number of bytes that every cache entry is charged on top of its key
/// and value bytes.
pub const CACHE_ENTRY_OVERHEAD: usize = 64;

/// A cached key and its value.
pub type Item = (Seq<char>, Seq<u8>);

/// The number of bytes of the UTF-8 encoding of `key`, as `str::len` reports it.
pub open spec fn key_byte_len(key: Seq<char>) -> nat {
    (encode_utf8(key).len() as usize) as nat
}

/// The weight an entry is charged: key bytes, value bytes and the fixed overhead.
pub open spec fn entry_weight(key: Seq<char>, value: Seq<u8>) -> nat {
    key_byte_len(key) + value.len() + CACHE_ENTRY_OVERHEAD as nat
}

pub open spec fn item_weight(item: Item) -> nat {
    entry_weight(item.0, item.1)
}

/// The summed weight of all items.
pub open spec fn total_weight(items: Seq<Item>) -> nat
    decreases items.len(),
{
    if items.len() == 0 {
        0
    } else {
        total_weight(items.drop_last()) + item_weight(items.last())
    }
}

/// No key occurs twice.
pub open spec fn distinct_keys(items: Seq<Item>) -> bool {
    forall|i: int, j: int| 0 <= i < j < items.len() ==> items[i].0 != items[j].0
}

pub open spec fn has_key(items: Seq<Item>, key: Seq<char>) -> bool {
    exists|i: int| 0 <= i < items.len() && items[i].0 == key
}

/// The position of `key`, where it occurs.
pub open spec fn key_index(items: Seq<Item>, key: Seq<char>) -> int {
    choose|i: int| 0 <= i < items.len() && items[i].0 == key
}

/// The value stored under `key`, if any.
pub open spec fn lookup(items: Seq<Item>, key: Seq<char>) -> Option<Seq<u8>> {
    if has_key(items, key) {
        Some(items[key_index(items, key)].1)
    } else {
        None
    }
}

/// The items with the one for `key` taken out.
pub open spec fn without_key(items: Seq<Item>, key: Seq<char>) -> Seq<Item> {
    if has_key(items, key) {
        items.remove(key_index(items, key))
    } else {
        items
    }
}

/// The items after a read of `key`: the item read becomes the most recent.
pub open spec fn touched(items: Seq<Item>, key: Seq<char>) -> Seq<Item> {
    if has_key(items, key) {
        seq![items[key_index(items, key)]] + items.remove(key_index(items, key))
    } else {
        items
    }
}

/// Drops least recently used items until `incoming` more weight fits under
/// `max`, or nothing is left.
pub open spec fn evicted_to_fit(items: Seq<Item>, incoming: nat, max: nat) -> Seq<Item>
    decreases items.len(),
{
    if total_weight(items) + incoming <= max || items.len() == 0 {
        items
    } else {
        evicted_to_fit(items.drop_last(), incoming, max)
    }
}

pub open spec fn not_found_message() -> Seq<char> {
    "Value not found"@
}

pub open spec fn entry_weight_overflow_message() -> Seq<char> {
    "Cache entry weight overflowed usize"@
}

pub open spec fn total_weight_overflow_message() -> Seq<char> {
    "Cache weight overflowed usize"@
}

pub open spec fn nothing_to_evict_message() -> Seq<char> {
    "Cache has no entries to evict, but capacity is still exceeded"@
}

pub open spec fn too_large_message(weight: nat, max: nat) -> Seq<char> {
    "Cache entry weight "@ + decimal_chars(weight) + " exceeds maximum cache weight "@
        + decimal_chars(max)
}

/// What storing `value` under `key` gives: the new items, or the error and no change.
pub open spec fn store_outcome(
    items: Seq<Item>,
    limit: Option<usize>,
    key: Seq<char>,
    value: Seq<u8>,
) -> Result<Seq<Item>, ErrorView> {
    let w = entry_weight(key, value);
    let rest = without_key(items, key);
    if w > usize::MAX {
        Err(ErrorView::Custom(entry_weight_overflow_message()))
    } else {
        match limit {
            Some(max) => if w > max {
                Err(ErrorView::CacheEntryTooLarge(too_large_message(w, max as nat)))
            } else {
                Ok(seq![(key, value)] + evicted_to_fit(rest, w, max as nat))
            },
            None => if total_weight(rest) + w > usize::MAX {
                Err(ErrorView::Custom(total_weight_overflow_message()))
            } else {
                Ok(seq![(key, value)] + rest)
            },
        }
    }
}

/// One operation on the cache, as `get` and `set` of the store perform it.
pub enum CacheOp {
    /// A read of the key.
    Read(Seq<char>),
    /// Storing the value under the key.
    Store(Seq<char>, Seq<u8>),
    /// Removing the key.
    Remove(Seq<char>),
}

/// The items after one operation; a refused store leaves them as they were.
pub open spec fn apply_op(items: Seq<Item>, limit: Option<usize>, op: CacheOp) -> Seq<Item> {
    match op {
        CacheOp::Read(key) => touched(items, key),
        CacheOp::Store(key, value) => match store_outcome(items, limit, key, value) {
            Ok(after) => after,
            Err(_) => items,
        },
        CacheOp::Remove(key) => without_key(items, key),
    }
}

/// The items after a sequence of operations, applied in order.
pub open spec fn apply_ops(items: Seq<Item>, limit: Option<usize>, ops: Seq<CacheOp>) -> Seq<
    Item,
>
    decreases ops.len(),
{
    if ops.len() == 0 {
        items
    } else {
        apply_ops(apply_op(items, limit, ops[0]), limit, ops.drop_first())
    }
}

/// The operation stores or removes `key`.
pub open spec fn writes_key(op: CacheOp, key: Seq<char>) -> bool {
    match op {
        CacheOp::Read(_) => false,
        CacheOp::Store(k, _) => k == key,
        CacheOp::Remove(k) => k == key,
    }
}

/// The items are a valid cache content under `limit`.
pub open spec fn valid_items(items: Seq<Item>, limit: Option<usize>) -> bool {
    &&& distinct_keys(items)
    &&& total_weight(items) <= usize::MAX
    &&& (limit matches Some(max) ==> total_weight(items) <= max)
}

// ---------------------------------------------------------------------------
// Lemmas on the model
pub proof fn lemma_total_remove(items: Seq<Item>, i: int)
    requires
        0 <= i < items.len(),
    ensures
        total_weight(items) == total_weight(items.remove(i)) + item_weight(items[i]),
    decreases items.len(),
{
    if i == items.len() - 1 {
        assert(items.remove(i) =~= items.drop_last());
    } else {
        let r = items.remove(i);
        lemma_total_remove(items.drop_last(), i);
        assert(r.drop_last() =~= items.drop_last().remove(i));
        assert(r.last() == items.last());
    }
}

pub proof fn lemma_total_prepend(item: Item, items: Seq<Item>)
    ensures
        total_weight(seq![item] + items) == item_weight(item) + total_weight(items),
    decreases items.len(),
{
    let s = seq![item] + items;
    if items.len() == 0 {
        assert(s.drop_last() =~= Seq::<Item>::empty());
        assert(total_weight(s.drop_last()) == 0);
        assert(total_weight(items) == 0);
        assert(s.last() == item);
    } else {
        lemma_total_prepend(item, items.drop_last());
        assert(s.drop_last() =~= seq![item] + items.drop_last());
        assert(s.last() == items.last());
    }
}

pub proof fn lemma_total_prefix(items: Seq<Item>, n: int)
    requires
        0 <= n <= items.len(),
    ensures
        total_weight(items.subrange(0, n)) <= total_weight(items),
    decreases items.len(),
{
    if n < items.len() {
        lemma_total_prefix(items.drop_last(), n);
        assert(items.drop_last().subrange(0, n) =~= items.subrange(0, n));
    } else {
        assert(items.subrange(0, n) =~= items);
    }
}

pub proof fn lemma_evicted_prefix(items: Seq<Item>, incoming: nat, max: nat)
    ensures
        evicted_to_fit(items, incoming, max).len() <= items.len(),
        evicted_to_fit(items, incoming, max) =~= items.subrange(
            0,
            evicted_to_fit(items, incoming, max).len() as int,
        ),
        incoming <= max ==> total_weight(evicted_to_fit(items, incoming, max)) + incoming <= max,
    decreases items.len(),
{
    if total_weight(items) + incoming <= max || items.len() == 0 {
    } else {
        lemma_evicted_prefix(items.drop_last(), incoming, max);
    }
}

pub proof fn lemma_key_index(items: Seq<Item>, key: Seq<char>, i: int)
    requires
        distinct_keys(items),
        0 <= i < items.len(),
        items[i].0 == key,
    ensures
        has_key(items, key),
        key_index(items, key) == i,
{
    assert(has_key(items, key));
}

pub proof fn lemma_remove_distinct(items: Seq<Item>, i: int)
    requires
        distinct_keys(items),
        0 <= i < items.len(),
    ensures
        distinct_keys(items.remove(i)),
        !has_key(items.remove(i), items[i].0),
        forall|k: Seq<char>| k != items[i].0 ==> (has_key(items.remove(i), k) == has_key(items, k)),
{
    let r = items.remove(i);
    assert forall|a: int, b: int| 0 <= a < b < r.len() implies r[a].0 != r[b].0 by {
        let ia = if a < i { a } else { a + 1 };
        let ib = if b < i { b } else { b + 1 };
        assert(r[a] == items[ia]);
        assert(r[b] == items[ib]);
    }
    assert forall|k: Seq<char>| k != items[i].0 implies (has_key(r, k) == has_key(items, k)) by {
        if has_key(items, k) {
            let j = choose|j: int| 0 <= j < items.len() && items[j].0 == k;
            let jr = if j < i { j } else { j - 1 };
            assert(r[jr] == items[j]);
        }
        if has_key(r, k) {
            let j = choose|j: int| 0 <= j < r.len() && r[j].0 == k;
            let ji = if j < i { j } else { j + 1 };
            assert(r[j] == items[ji]);
        }
    }
    if has_key(r, items[i].0) {
        let j = choose|j: int| 0 <= j < r.len() && r[j].0 == items[i].0;
        let ji = if j < i { j } else { j + 1 };
        assert(r[j] == items[ji]);
    }
}

pub proof fn lemma_without_key(items: Seq<Item>, key: Seq<char>)
    requires
        distinct_keys(items),
    ensures
        distinct_keys(without_key(items, key)),
        !has_key(without_key(items, key), key),
        total_weight(without_key(items, key)) <= total_weight(items),
{
    if has_key(items, key) {
        let i = key_index(items, key);
        lemma_remove_distinct(items, i);
        lemma_total_remove(items, i);
    }
}

pub proof fn lemma_prefix_distinct(items: Seq<Item>, n: int)
    requires
        distinct_keys(items),
        0 <= n <= items.len(),
    ensures
        distinct_keys(items.subrange(0, n)),
        forall|k: Seq<char>| has_key(items.subrange(0, n), k) ==> has_key(items, k),
{
    let p = items.subrange(0, n);
    assert forall|k: Seq<char>| has_key(p, k) implies has_key(items, k) by {
        let j = choose|j: int| 0 <= j < p.len() && p[j].0 == k;
        assert(items[j] == p[j]);
    }
}

pub proof fn lemma_prepend_distinct(item: Item, items: Seq<Item>)
    requires
        distinct_keys(items),
        !has_key(items, item.0),
    ensures
        distinct_keys(seq![item] + items),
{
    let s = seq![item] + items;
    assert forall|a: int, b: int| 0 <= a < b < s.len() implies s[a].0 != s[b].0 by {
        if a == 0 {
            assert(s[b] == items[b - 1]);
        } else {
            assert(s[a] == items[a - 1]);
            assert(s[b] == items[b - 1]);
        }
    }
}

/// A successful store leaves valid items.
pub proof fn lemma_store_outcome_valid(
    items: Seq<Item>,
    limit: Option<usize>,
    key: Seq<char>,
    value: Seq<u8>,
)
    requires
        valid_items(items, limit),
        store_outcome(items, limit, key, value) is Ok,
    ensures
        valid_items(store_outcome(items, limit, key, value)->Ok_0, limit),
{
    let w = entry_weight(key, value);
    let rest = without_key(items, key);
    lemma_without_key(items, key);
    let kept = match limit {
        Some(max) => evicted_to_fit(rest, w, max as nat),
        None => rest,
    };
    if let Some(max) = limit {
        lemma_evicted_prefix(rest, w, max as nat);
        lemma_prefix_distinct(rest, kept.len() as int);
    }
    lemma_prepend_distinct((key, value), kept);
    lemma_total_prepend((key, value), kept);
}

} // verus!
