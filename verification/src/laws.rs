//! Properties of the cache that hold across its operations, stated over the
//! model that the operations' contracts use.
use vstd::prelude::*;

use crate::handler::{ok_view, request_answer};
use crate::protocol::{Request, RequestMethod, ResponseStatus, opt_bytes};
use crate::store::{free_without_key, slots_without_key, store_slot};
use crate::cache_model::{
    CacheOp, apply_op, apply_ops, writes_key,
    Item, distinct_keys, entry_weight, key_byte_len, CACHE_ENTRY_OVERHEAD, evicted_to_fit, has_key, key_index, lemma_evicted_prefix,
    lemma_key_index, lemma_prefix_distinct, lemma_prepend_distinct, lemma_remove_distinct,
    lemma_total_prefix, lemma_total_prepend, lemma_total_remove, lemma_without_key, lookup,
    store_outcome, total_weight, touched, valid_items, without_key,
};

verus! {

/// Every operation keeps the items valid: keys stay distinct and, under a
/// limit, the total weight stays within it.
pub proof fn law_operations_keep_items_valid(
    items: Seq<Item>,
    limit: Option<usize>,
    key: Seq<char>,
    value: Seq<u8>,
)
    requires
        valid_items(items, limit),
    ensures
        store_outcome(items, limit, key, value) is Ok ==> valid_items(
            store_outcome(items, limit, key, value)->Ok_0,
            limit,
        ),
        valid_items(without_key(items, key), limit),
        valid_items(touched(items, key), limit),
{
    if store_outcome(items, limit, key, value) is Ok {
        crate::cache_model::lemma_store_outcome_valid(items, limit, key, value);
    }
    lemma_without_key(items, key);
    law_read_keeps_contents(items, key, key);
}

/// A successful store is read back: the value just stored is what a read of
/// its key returns.
pub proof fn law_read_after_store(
    items: Seq<Item>,
    limit: Option<usize>,
    key: Seq<char>,
    value: Seq<u8>,
)
    requires
        valid_items(items, limit),
        store_outcome(items, limit, key, value) is Ok,
    ensures
        lookup(store_outcome(items, limit, key, value)->Ok_0, key) == Some(value),
{
    let after = store_outcome(items, limit, key, value)->Ok_0;
    crate::cache_model::lemma_store_outcome_valid(items, limit, key, value);
    lemma_key_index(after, key, 0);
}

/// After a removal, a read of the removed key finds nothing.
pub proof fn law_read_after_remove(items: Seq<Item>, key: Seq<char>)
    requires
        distinct_keys(items),
    ensures
        lookup(without_key(items, key), key) is None,
{
    lemma_without_key(items, key);
}

/// A removal leaves every other key with the value it had.
pub proof fn law_remove_keeps_others(items: Seq<Item>, key: Seq<char>, other: Seq<char>)
    requires
        distinct_keys(items),
        other != key,
    ensures
        lookup(without_key(items, key), other) == lookup(items, other),
{
    if has_key(items, key) {
        let i = key_index(items, key);
        lemma_remove_distinct(items, i);
        let r = items.remove(i);
        if has_key(items, other) {
            let j = key_index(items, other);
            let jr = if j < i { j } else { j - 1 };
            assert(r[jr] == items[j]);
            lemma_key_index(r, other, jr);
        }
    }
}

/// A read changes no value and no weight: it only reorders the items.
pub proof fn law_read_keeps_contents(items: Seq<Item>, key: Seq<char>, other: Seq<char>)
    requires
        distinct_keys(items),
    ensures
        lookup(touched(items, key), other) == lookup(items, other),
        total_weight(touched(items, key)) == total_weight(items),
        distinct_keys(touched(items, key)),
        has_key(items, key) ==> touched(items, key)[0].0 == key,
{
    if has_key(items, key) {
        let i = key_index(items, key);
        let item = items[i];
        let r = items.remove(i);
        let t = touched(items, key);
        lemma_remove_distinct(items, i);
        lemma_prepend_distinct(item, r);
        lemma_total_remove(items, i);
        lemma_total_prepend(item, r);
        if has_key(items, other) {
            let j = key_index(items, other);
            if j == i {
                lemma_key_index(t, other, 0);
            } else {
                let jr = if j < i { j } else { j - 1 };
                assert(r[jr] == items[j]);
                assert(t[jr + 1] == r[jr]);
                lemma_key_index(t, other, jr + 1);
            }
        } else if has_key(t, other) {
            let j = choose|j: int| 0 <= j < t.len() && t[j].0 == other;
            if j == 0 {
                assert(items[i].0 == other);
            } else {
                let ji = if j - 1 < i { j - 1 } else { j };
                assert(t[j] == r[j - 1]);
                assert(r[j - 1] == items[ji]);
            }
        }
    }
}

/// A store evicts only least recently used items, and only as many as it
/// must: what it keeps besides the new item is a prefix of the other items,
/// and keeping one more would exceed the limit.
pub proof fn law_store_evicts_least_recent_first(
    items: Seq<Item>,
    max: usize,
    key: Seq<char>,
    value: Seq<u8>,
)
    requires
        valid_items(items, Some(max)),
        store_outcome(items, Some(max), key, value) is Ok,
    ensures
        ({
            let after = store_outcome(items, Some(max), key, value)->Ok_0;
            let rest = without_key(items, key);
            let kept = (after.len() - 1) as int;
            &&& after[0] == (key, value)
            &&& 0 <= kept <= rest.len()
            &&& after.subrange(1, after.len() as int) == rest.subrange(0, kept)
            &&& kept < rest.len() ==> total_weight(rest.subrange(0, kept + 1)) + entry_weight(
                key,
                value,
            ) > max
        }),
{
    let w = entry_weight(key, value);
    let rest = without_key(items, key);
    let after = store_outcome(items, Some(max), key, value)->Ok_0;
    let kept = evicted_to_fit(rest, w, max as nat);
    lemma_evicted_prefix(rest, w, max as nat);
    assert(after.subrange(1, after.len() as int) =~= kept);
    lemma_evicted_minimal(rest, w, max as nat);
}

/// What eviction keeps is the longest prefix that leaves room.
proof fn lemma_evicted_minimal(items: Seq<Item>, incoming: nat, max: nat)
    ensures
        evicted_to_fit(items, incoming, max).len() < items.len() ==> total_weight(
            items.subrange(0, evicted_to_fit(items, incoming, max).len() as int + 1),
        ) + incoming > max,
    decreases items.len(),
{
    if total_weight(items) + incoming <= max || items.len() == 0 {
    } else {
        let d = items.drop_last();
        lemma_evicted_minimal(d, incoming, max);
        lemma_evicted_prefix(d, incoming, max);
        let n = evicted_to_fit(d, incoming, max).len() as int;
        if n < d.len() {
            assert(d.subrange(0, n + 1) =~= items.subrange(0, n + 1));
        } else {
            assert(items.subrange(0, n + 1) =~= items);
        }
    }
}

/// Without a limit nothing is evicted: a store keeps every other key with its value.
pub proof fn law_unbounded_store_keeps_others(
    items: Seq<Item>,
    key: Seq<char>,
    value: Seq<u8>,
    other: Seq<char>,
)
    requires
        valid_items(items, None),
        store_outcome(items, None, key, value) is Ok,
        other != key,
    ensures
        lookup(store_outcome(items, None, key, value)->Ok_0, other) == lookup(items, other),
{
    let rest = without_key(items, key);
    let after = store_outcome(items, None, key, value)->Ok_0;
    law_remove_keeps_others(items, key, other);
    lemma_without_key(items, key);
    lemma_prepend_distinct((key, value), rest);
    if has_key(rest, other) {
        let j = key_index(rest, other);
        assert(after[j + 1] == rest[j]);
        lemma_key_index(after, other, j + 1);
    } else if has_key(after, other) {
        let j = choose|j: int| 0 <= j < after.len() && after[j].0 == other;
        assert(after[j] == rest[j - 1]);
    }
}

/// A store never invents values: every key it leaves is the stored key or a
/// key that held the same value before.
pub proof fn law_store_keeps_or_drops_others(
    items: Seq<Item>,
    limit: Option<usize>,
    key: Seq<char>,
    value: Seq<u8>,
    other: Seq<char>,
)
    requires
        valid_items(items, limit),
        store_outcome(items, limit, key, value) is Ok,
        other != key,
        has_key(store_outcome(items, limit, key, value)->Ok_0, other),
    ensures
        lookup(store_outcome(items, limit, key, value)->Ok_0, other) == lookup(items, other),
{
    let w = entry_weight(key, value);
    let rest = without_key(items, key);
    let after = store_outcome(items, limit, key, value)->Ok_0;
    law_remove_keeps_others(items, key, other);
    lemma_without_key(items, key);
    let kept = after.subrange(1, after.len() as int);
    match limit {
        Some(max) => {
            lemma_evicted_prefix(rest, w, max as nat);
            lemma_prefix_distinct(rest, kept.len() as int);
            assert(kept =~= evicted_to_fit(rest, w, max as nat));
        },
        None => {
            assert(kept =~= rest);
            assert(kept =~= rest.subrange(0, rest.len() as int));
            lemma_prefix_distinct(rest, rest.len() as int);
        },
    }
    crate::cache_model::lemma_store_outcome_valid(items, limit, key, value);
    let j = key_index(after, other);
    assert(j > 0);
    assert(after[j] == kept[j - 1]);
    assert(kept[j - 1] == rest[j - 1]);
    lemma_key_index(rest, other, j - 1);
}

/// A slot freed by a removal is the slot that the next store of a new key
/// fills when it evicts nothing.
pub proof fn law_removed_slot_is_reused(
    items: Seq<Item>,
    slots: Seq<usize>,
    free: Seq<usize>,
    slot_count: nat,
    removed: Seq<char>,
    key: Seq<char>,
)
    requires
        distinct_keys(items),
        slots.len() == items.len(),
        has_key(items, removed),
        !has_key(without_key(items, removed), key),
    ensures
        store_slot(
            without_key(items, removed),
            slots_without_key(items, slots, removed),
            free_without_key(items, slots, free, removed),
            slot_count,
            key,
            without_key(items, removed).len() as int,
        ) == slots[key_index(items, removed)],
{
    let rest = slots_without_key(items, slots, removed);
    let f = free_without_key(items, slots, free, removed);
    assert(rest.subrange(rest.len() as int, rest.len() as int).reverse() =~= Seq::<usize>::empty());
    assert(f + Seq::<usize>::empty() + Seq::<usize>::empty() =~= f);
}

/// Every sequence of operations keeps the items valid: under a limit their
/// total weight never exceeds it.
pub proof fn law_operations_keep_valid(items: Seq<Item>, limit: Option<usize>, ops: Seq<CacheOp>)
    requires
        valid_items(items, limit),
    ensures
        valid_items(apply_ops(items, limit, ops), limit),
    decreases ops.len(),
{
    if ops.len() > 0 {
        lemma_op_keeps_valid(items, limit, ops[0]);
        law_operations_keep_valid(apply_op(items, limit, ops[0]), limit, ops.drop_first());
    }
}

proof fn lemma_op_keeps_valid(items: Seq<Item>, limit: Option<usize>, op: CacheOp)
    requires
        valid_items(items, limit),
    ensures
        valid_items(apply_op(items, limit, op), limit),
{
    match op {
        CacheOp::Read(k) => law_operations_keep_items_valid(items, limit, k, Seq::empty()),
        CacheOp::Store(k, v) => law_operations_keep_items_valid(items, limit, k, v),
        CacheOp::Remove(k) => law_operations_keep_items_valid(items, limit, k, Seq::empty()),
    }
}

/// In an unbounded cache a value stays readable: whatever operations follow,
/// as long as none stores or removes its key, a read of the key gives it back.
pub proof fn law_unbounded_value_survives(
    items: Seq<Item>,
    ops: Seq<CacheOp>,
    key: Seq<char>,
    value: Seq<u8>,
)
    requires
        valid_items(items, None),
        lookup(items, key) == Some(value),
        forall|i: int| 0 <= i < ops.len() ==> !writes_key(#[trigger] ops[i], key),
    ensures
        lookup(apply_ops(items, None, ops), key) == Some(value),
    decreases ops.len(),
{
    if ops.len() > 0 {
        let op = ops[0];
        assert(!writes_key(ops[0], key));
        let next = apply_op(items, None, op);
        match op {
            CacheOp::Read(k) => {
                law_read_keeps_contents(items, k, key);
            },
            CacheOp::Store(k, v) => {
                if store_outcome(items, None, k, v) is Ok {
                    law_unbounded_store_keeps_others(items, k, v, key);
                }
            },
            CacheOp::Remove(k) => {
                law_remove_keeps_others(items, k, key);
            },
        }
        lemma_op_keeps_valid(items, None, op);
        let rest = ops.drop_first();
        assert forall|i: int| 0 <= i < rest.len() implies !writes_key(#[trigger] rest[i], key) by {
            assert(rest[i] == ops[i + 1]);
        }
        law_unbounded_value_survives(next, rest, key, value);
    }
}

/// In an unbounded cache a stored value is read back after any operations
/// that neither store nor remove its key.
pub proof fn law_unbounded_store_then_read(
    items: Seq<Item>,
    ops: Seq<CacheOp>,
    key: Seq<char>,
    value: Seq<u8>,
)
    requires
        valid_items(items, None),
        store_outcome(items, None, key, value) is Ok,
        forall|i: int| 0 <= i < ops.len() ==> !writes_key(#[trigger] ops[i], key),
    ensures
        lookup(apply_ops(store_outcome(items, None, key, value)->Ok_0, None, ops), key) == Some(
            value,
        ),
{
    law_read_after_store(items, None, key, value);
    crate::cache_model::lemma_store_outcome_valid(items, None, key, value);
    law_unbounded_value_survives(store_outcome(items, None, key, value)->Ok_0, ops, key, value);
}

/// Under a limit, an entry that weighs more than the limit is never stored.
pub proof fn law_bounded_refuses_heavy_entry(
    items: Seq<Item>,
    max: usize,
    key: Seq<char>,
    value: Seq<u8>,
)
    requires
        entry_weight(key, value) > max,
    ensures
        store_outcome(items, Some(max), key, value) is Err,
        apply_op(items, Some(max), CacheOp::Store(key, value)) == items,
{
}

/// Every value byte adds one to an entry's weight, on top of the key bytes
/// and the fixed overhead that an empty value weighs.
pub proof fn law_entry_weight_counts_every_byte(key: Seq<char>, value: Seq<u8>, byte: u8)
    ensures
        entry_weight(key, Seq::empty()) == key_byte_len(key) + CACHE_ENTRY_OVERHEAD,
        entry_weight(key, value.push(byte)) == entry_weight(key, value) + 1,
        entry_weight(key, value) == entry_weight(key, Seq::empty()) + value.len(),
{
}

/// Under a limit, a store whose entry weighs no more than the limit always
/// succeeds, whether or not its key is already cached: the value is read back
/// and the total stays within the limit.
pub proof fn law_bounded_store_of_fitting_entry_succeeds(
    items: Seq<Item>,
    max: usize,
    key: Seq<char>,
    value: Seq<u8>,
)
    requires
        valid_items(items, Some(max)),
        entry_weight(key, value) <= max,
    ensures
        store_outcome(items, Some(max), key, value) is Ok,
        lookup(store_outcome(items, Some(max), key, value)->Ok_0, key) == Some(value),
        total_weight(store_outcome(items, Some(max), key, value)->Ok_0) <= max,
{
    law_read_after_store(items, Some(max), key, value);
    crate::cache_model::lemma_store_outcome_valid(items, Some(max), key, value);
}

/// Without a limit, a store succeeds whenever the cache's total weight plus
/// the entry's weight fits in `usize`, whether or not its key is cached.
pub proof fn law_unbounded_store_of_fitting_entry_succeeds(
    items: Seq<Item>,
    key: Seq<char>,
    value: Seq<u8>,
)
    requires
        valid_items(items, None),
        total_weight(items) + entry_weight(key, value) <= usize::MAX,
    ensures
        store_outcome(items, None, key, value) is Ok,
        lookup(store_outcome(items, None, key, value)->Ok_0, key) == Some(value),
{
    lemma_without_key(items, key);
    law_read_after_store(items, None, key, value);
}

/// Serving a Get request changes no stored value, for any key including the
/// one read, keeps every item, and answers a cached key with its value.
pub proof fn law_get_request_keeps_values(
    items: Seq<Item>,
    limit: Option<usize>,
    req: Request,
    other: Seq<char>,
)
    requires
        valid_items(items, limit),
        req.method == RequestMethod::Get,
    ensures
        lookup(request_answer(items, limit, req).1, other) == lookup(items, other),
        request_answer(items, limit, req).1.len() == items.len(),
        lookup(items, req.key@) matches Some(v) ==> request_answer(items, limit, req).0
            == ok_view("found value"@, Some(v)),
        lookup(items, req.key@) is None ==> request_answer(items, limit, req).0.status
            == ResponseStatus::Error,
{
    law_read_keeps_contents(items, req.key@, other);
    if has_key(items, req.key@) {
        lemma_remove_distinct(items, key_index(items, req.key@));
    }
}

/// A Set request that succeeds is read back: the key then holds exactly the
/// value the request carried, whatever that value is, the empty one included.
pub proof fn law_successful_put_is_read_back(
    items: Seq<Item>,
    limit: Option<usize>,
    req: Request,
)
    requires
        valid_items(items, limit),
        req.method == RequestMethod::Put,
    ensures
        request_answer(items, limit, req).0.status == ResponseStatus::Success ==> {
            &&& opt_bytes(req.value) is Some
            &&& lookup(request_answer(items, limit, req).1, req.key@) == opt_bytes(req.value)
        },
{
    if let Some(v) = opt_bytes(req.value) {
        if store_outcome(items, limit, req.key@, v) is Ok {
            law_read_after_store(items, limit, req.key@, v);
        }
    }
}

/// A Set request with a value succeeds whenever the entry fits, whether or not
/// its key is already cached (a Set overwrites): it answers success with no
/// value and the key then holds the new value.
pub proof fn law_fitting_put_succeeds(items: Seq<Item>, limit: Option<usize>, req: Request)
    requires
        valid_items(items, limit),
        req.method == RequestMethod::Put,
        req.value is Some,
        limit matches Some(max) ==> entry_weight(req.key@, opt_bytes(req.value)->Some_0) <= max,
        limit is None ==> total_weight(items) + entry_weight(req.key@, opt_bytes(req.value)->Some_0)
            <= usize::MAX,
    ensures
        request_answer(items, limit, req).0 == ok_view("Success"@, None),
        lookup(request_answer(items, limit, req).1, req.key@) == opt_bytes(req.value),
{
    let v = opt_bytes(req.value)->Some_0;
    match limit {
        Some(max) => law_bounded_store_of_fitting_entry_succeeds(items, max, req.key@, v),
        None => law_unbounded_store_of_fitting_entry_succeeds(items, req.key@, v),
    }
}

} // verus!
