//! What holds of the operations taken together, proved over the model.

use crate::error::KvError;
use crate::model::{
    get_result, incr_after, incr_result, item_ok, lookup, lpush_after, lpush_result, lrem_after, lrem_result,
    sadd_after, sadd_result, set_after, set_result, srem_after, srem_result, store_ok, sv_insert_after,
    sv_insert_result, sv_into_vec_result, sv_remove_item_after, sv_remove_item_result, sv_tail_off_after,
    sv_tail_off_result, ItemView, StoreMap,
};
use crate::blob::lemma_without;
use crate::sorted::{ascending, lemma_ascending_without, lemma_position_of, lemma_put_entry, position_of};
use vstd::prelude::*;

verus! {

/// The store after `incr` was called on `key` with each of `deltas` in turn.
pub open spec fn incr_all(m: StoreMap, key: Seq<char>, deltas: Seq<i32>) -> StoreMap
    decreases deltas.len(),
{
    if deltas.len() == 0 {
        m
    } else {
        incr_after(incr_all(m, key, deltas.drop_last()), key, deltas.last())
    }
}

/// The sum of those of `deltas` that `incr` applied when it was called on
/// `key` with each of them in turn: a call that was refused applied nothing.
pub open spec fn applied_sum(m: StoreMap, key: Seq<char>, deltas: Seq<i32>) -> int
    decreases deltas.len(),
{
    if deltas.len() == 0 {
        0
    } else {
        let earlier = deltas.drop_last();
        applied_sum(m, key, earlier) + if incr_result(incr_all(m, key, earlier), key, deltas.last()) is Ok {
            deltas.last() as int
        } else {
            0
        }
    }
}

/// The count that `incr` starts from: that of a counter, and zero under an
/// absent key.
pub open spec fn counter_of(m: StoreMap, key: Seq<char>) -> int {
    match lookup(m, key) {
        Some(ItemView::Atomic(x)) => x as int,
        _ => 0,
    }
}

/// Two items have the same shape.
pub open spec fn same_shape(a: ItemView, b: ItemView) -> bool {
    match (a, b) {
        (ItemView::Atomic(_), ItemView::Atomic(_)) => true,
        (ItemView::Scalar(_), ItemView::Scalar(_)) => true,
        (ItemView::List(_), ItemView::List(_)) => true,
        (ItemView::Members(_), ItemView::Members(_)) => true,
        (ItemView::SortedVec(_), ItemView::SortedVec(_)) => true,
        _ => false,
    }
}

/// After any number of calls of `incr` on a key that was absent or held a
/// counter, the key holds a counter whose count is the count before plus the
/// sum of the deltas that were applied. Nothing else in the store changes.
pub proof fn lemma_incr_sums(m: StoreMap, key: Seq<char>, deltas: Seq<i32>)
    requires
        lookup(m, key) is None || m[key] is Atomic,
        deltas.len() > 0,
    ensures
        i32::MIN <= counter_of(m, key) + applied_sum(m, key, deltas) <= i32::MAX,
        incr_all(m, key, deltas) == m.insert(
            key,
            ItemView::Atomic((counter_of(m, key) + applied_sum(m, key, deltas)) as i32),
        ),
    decreases deltas.len(),
{
    let earlier = deltas.drop_last();
    if earlier.len() == 0 {
        assert(incr_all(m, key, earlier) == m);
        assert(applied_sum(m, key, earlier) == 0);
        if incr_result(m, key, deltas.last()) is Err {
            assert(m.insert(key, m[key]) =~= m);
        }
    } else {
        lemma_incr_sums(m, key, earlier);
        let before = incr_all(m, key, earlier);
        let count = (counter_of(m, key) + applied_sum(m, key, earlier)) as i32;
        assert(before[key] == ItemView::Atomic(count));
        if incr_result(before, key, deltas.last()) is Ok {
            assert(before.insert(key, ItemView::Atomic((count + deltas.last()) as i32)) =~= m.insert(
                key,
                ItemView::Atomic((count + deltas.last()) as i32),
            ));
        }
    }
}

/// A scalar that was written is the scalar that is read, until the next one
/// is written. `set` is refused only where the key holds an item of another
/// shape.
pub proof fn lemma_set_get(m: StoreMap, key: Seq<char>, value: Seq<u8>, later: Seq<u8>)
    requires
        set_result(m, key) is Ok,
    ensures
        get_result(set_after(m, key, value), key) == Ok::<Seq<u8>, KvError>(value),
        set_result(set_after(m, key, value), key) is Ok,
        get_result(set_after(set_after(m, key, value), key, later), key) == Ok::<Seq<u8>, KvError>(later),
{
}

/// Every operation that changes the store leaves each item as the store
/// keeps it: the entries of a sorted vector ascend, so that no ordinal occurs
/// twice, a set is finite, and the counts of lists and sets fit in `i32`.
pub proof fn lemma_store_stays_ok(
    m: StoreMap,
    key: Seq<char>,
    delta: i32,
    value: Seq<u8>,
    ordinal: i32,
    overwrite: bool,
    remain: usize,
)
    requires
        store_ok(m),
    ensures
        store_ok(incr_after(m, key, delta)),
        store_ok(set_after(m, key, value)),
        store_ok(m.remove(key)),
        store_ok(lpush_after(m, key, value)),
        store_ok(lrem_after(m, key, value)),
        store_ok(sadd_after(m, key, value)),
        store_ok(srem_after(m, key, value)),
        store_ok(sv_insert_after(m, key, ordinal, value, overwrite)),
        store_ok(sv_tail_off_after(m, key, remain)),
        store_ok(sv_remove_item_after(m, key, value)),
{
    if m.contains_key(key) {
        assert(item_ok(m[key]));
        match m[key] {
            ItemView::List(l) => {
                lemma_without(l, value);
            },
            ItemView::Members(s) => {
                assert(s.insert(value).finite());
                assert(s.remove(value).finite());
                assert(s.remove(value).len() <= s.len());
            },
            ItemView::SortedVec(e) => {
                lemma_put_entry(e, ordinal, value);
                lemma_position_of(e, value);
                lemma_ascending_without(e, position_of(e, value));
                if e.len() > remain {
                    lemma_ascending_without(e, remain as int);
                }
            },
            _ => {},
        }
    } else {
        assert(set![value].finite());
        assert(set![value].len() == 1);
    }
}

/// What `sv_into_vec` returns from a store whose items are as the store keeps
/// them ascends strictly, so that no ordinal occurs twice.
pub proof fn lemma_dump_ascends(m: StoreMap, key: Seq<char>)
    requires
        store_ok(m),
    ensures
        match sv_into_vec_result(m, key) {
            Ok(e) => ascending(e) && forall|i: int, j: int| 0 <= i < e.len() && 0 <= j < e.len() && i != j ==> e[i].0 != e[j].0,
            Err(_) => true,
        },
{
    match sv_into_vec_result(m, key) {
        Ok(e) => {
            if m.contains_key(key) {
                assert(item_ok(m[key]));
            }
            assert forall|i: int, j: int| 0 <= i < e.len() && 0 <= j < e.len() && i != j implies e[i].0 != e[j].0 by {
                if i < j {
                    assert(e[i].0 < e[j].0);
                } else {
                    assert(e[j].0 < e[i].0);
                }
            }
        },
        Err(_) => {},
    }
}

/// One change to a sorted vector.
pub enum SortedChange {
    /// `sv_insert` of an ordinal and a payload, with `overwrite` on or off.
    Insert(i32, Seq<u8>, bool),
    /// `sv_remove_item` of a payload.
    RemoveItem(Seq<u8>),
    /// `sv_tail_off` down to a number of entries.
    TailOff(usize),
}

/// The store after one change to the sorted vector under `key`.
pub open spec fn changed(m: StoreMap, key: Seq<char>, change: SortedChange) -> StoreMap {
    match change {
        SortedChange::Insert(ordinal, payload, overwrite) => sv_insert_after(m, key, ordinal, payload, overwrite),
        SortedChange::RemoveItem(payload) => sv_remove_item_after(m, key, payload),
        SortedChange::TailOff(remain) => sv_tail_off_after(m, key, remain),
    }
}

/// The store after each of `changes` was made in turn to the sorted vector
/// under `key`.
pub open spec fn changed_by_all(m: StoreMap, key: Seq<char>, changes: Seq<SortedChange>) -> StoreMap
    decreases changes.len(),
{
    if changes.len() == 0 {
        m
    } else {
        changed(changed_by_all(m, key, changes.drop_last()), key, changes.last())
    }
}

/// After any sequence of inserts, removals and cuts, what `sv_into_vec`
/// returns ascends strictly, so that no ordinal occurs twice.
pub proof fn lemma_ascends_after_any_changes(m: StoreMap, key: Seq<char>, changes: Seq<SortedChange>)
    requires
        store_ok(m),
    ensures
        store_ok(changed_by_all(m, key, changes)),
        match sv_into_vec_result(changed_by_all(m, key, changes), key) {
            Ok(e) => ascending(e) && forall|i: int, j: int| 0 <= i < e.len() && 0 <= j < e.len() && i != j ==> e[i].0 != e[j].0,
            Err(_) => true,
        },
    decreases changes.len(),
{
    if changes.len() > 0 {
        let earlier = changed_by_all(m, key, changes.drop_last());
        lemma_ascends_after_any_changes(m, key, changes.drop_last());
        match changes.last() {
            SortedChange::Insert(ordinal, payload, overwrite) => {
                lemma_store_stays_ok(earlier, key, 0, payload, ordinal, overwrite, 0);
            },
            SortedChange::RemoveItem(payload) => {
                lemma_store_stays_ok(earlier, key, 0, payload, 0, false, 0);
            },
            SortedChange::TailOff(remain) => {
                lemma_store_stays_ok(earlier, key, 0, Seq::empty(), 0, false, remain);
            },
        }
    }
    lemma_dump_ascends(changed_by_all(m, key, changes), key);
}

/// Once a key is deleted, an item of any shape can be made under it: the
/// shape of what it held before does not matter.
pub proof fn lemma_recreate_after_del(
    m: StoreMap,
    key: Seq<char>,
    delta: i32,
    value: Seq<u8>,
    ordinal: i32,
    overwrite: bool,
)
    ensures
        incr_result(m.remove(key), key, delta) == Ok::<i32, KvError>(delta),
        incr_after(m.remove(key), key, delta)[key] == ItemView::Atomic(delta),
        set_result(m.remove(key), key) is Ok,
        set_after(m.remove(key), key, value)[key] == ItemView::Scalar(value),
        lpush_result(m.remove(key), key) == Ok::<i32, KvError>(1),
        lpush_after(m.remove(key), key, value)[key] == ItemView::List(seq![value]),
        sadd_result(m.remove(key), key, value) == Ok::<i32, KvError>(1),
        sadd_after(m.remove(key), key, value)[key] == ItemView::Members(set![value]),
        sv_insert_result(m.remove(key), key, ordinal, overwrite) == Ok::<bool, KvError>(true),
        sv_insert_after(m.remove(key), key, ordinal, value, overwrite)[key] == ItemView::SortedVec(
            seq![(ordinal, value)],
        ),
{
}

/// While a key exists, its item keeps its shape: no operation but `del`
/// removes the key or puts an item of another shape in its place.
pub proof fn lemma_shape_is_kept(
    m: StoreMap,
    key: Seq<char>,
    delta: i32,
    value: Seq<u8>,
    ordinal: i32,
    overwrite: bool,
    remain: usize,
)
    requires
        m.contains_key(key),
    ensures
        incr_after(m, key, delta).contains_key(key) && same_shape(incr_after(m, key, delta)[key], m[key]),
        set_after(m, key, value).contains_key(key) && same_shape(set_after(m, key, value)[key], m[key]),
        lpush_after(m, key, value).contains_key(key) && same_shape(lpush_after(m, key, value)[key], m[key]),
        lrem_after(m, key, value).contains_key(key) && same_shape(lrem_after(m, key, value)[key], m[key]),
        sadd_after(m, key, value).contains_key(key) && same_shape(sadd_after(m, key, value)[key], m[key]),
        srem_after(m, key, value).contains_key(key) && same_shape(srem_after(m, key, value)[key], m[key]),
        sv_insert_after(m, key, ordinal, value, overwrite).contains_key(key) && same_shape(
            sv_insert_after(m, key, ordinal, value, overwrite)[key],
            m[key],
        ),
        sv_tail_off_after(m, key, remain).contains_key(key) && same_shape(
            sv_tail_off_after(m, key, remain)[key],
            m[key],
        ),
        sv_remove_item_after(m, key, value).contains_key(key) && same_shape(
            sv_remove_item_after(m, key, value)[key],
            m[key],
        ),
{
}

/// An operation that is refused leaves the store as it was.
pub proof fn lemma_refused_changes_nothing(
    m: StoreMap,
    key: Seq<char>,
    delta: i32,
    value: Seq<u8>,
    ordinal: i32,
    overwrite: bool,
    remain: usize,
)
    ensures
        incr_result(m, key, delta) is Err ==> incr_after(m, key, delta) == m,
        set_result(m, key) is Err ==> set_after(m, key, value) == m,
        lpush_result(m, key) is Err ==> lpush_after(m, key, value) == m,
        lrem_result(m, key, value) is Err ==> lrem_after(m, key, value) == m,
        sadd_result(m, key, value) is Err ==> sadd_after(m, key, value) == m,
        srem_result(m, key, value) is Err ==> srem_after(m, key, value) == m,
        sv_insert_result(m, key, ordinal, overwrite) is Err ==> sv_insert_after(m, key, ordinal, value, overwrite)
            == m,
        sv_tail_off_result(m, key, remain) is Err ==> sv_tail_off_after(m, key, remain) == m,
        sv_remove_item_result(m, key, value) is Err ==> sv_remove_item_after(m, key, value) == m,
{
}

/// An operation on one key leaves what every other key holds as it was.
pub proof fn lemma_other_keys_stay(
    m: StoreMap,
    key: Seq<char>,
    delta: i32,
    value: Seq<u8>,
    ordinal: i32,
    overwrite: bool,
    remain: usize,
)
    ensures
        incr_after(m, key, delta).remove(key) == m.remove(key),
        set_after(m, key, value).remove(key) == m.remove(key),
        lpush_after(m, key, value).remove(key) == m.remove(key),
        lrem_after(m, key, value).remove(key) == m.remove(key),
        sadd_after(m, key, value).remove(key) == m.remove(key),
        srem_after(m, key, value).remove(key) == m.remove(key),
        sv_insert_after(m, key, ordinal, value, overwrite).remove(key) == m.remove(key),
        sv_tail_off_after(m, key, remain).remove(key) == m.remove(key),
        sv_remove_item_after(m, key, value).remove(key) == m.remove(key),
{
    assert(incr_after(m, key, delta).remove(key) =~= m.remove(key));
    assert(set_after(m, key, value).remove(key) =~= m.remove(key));
    assert(lpush_after(m, key, value).remove(key) =~= m.remove(key));
    assert(lrem_after(m, key, value).remove(key) =~= m.remove(key));
    assert(sadd_after(m, key, value).remove(key) =~= m.remove(key));
    assert(srem_after(m, key, value).remove(key) =~= m.remove(key));
    assert(sv_insert_after(m, key, ordinal, value, overwrite).remove(key) =~= m.remove(key));
    assert(sv_tail_off_after(m, key, remain).remove(key) =~= m.remove(key));
    assert(sv_remove_item_after(m, key, value).remove(key) =~= m.remove(key));
}

} // verus!
