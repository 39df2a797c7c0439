//! The store as mathematics: a map from key to item, and for each operation
//! what it returns and what it leaves behind.

use crate::blob::without;
use crate::error::KvError;
use crate::sorted::{ascending, has_ordinal, position_of, put_entry, Entry};
use vstd::prelude::*;

verus! {

/// What a key holds, as a mathematical value.
pub enum ItemView {
    /// A counter.
    Atomic(i32),
    /// A blob; the last one written.
    Scalar(Seq<u8>),
    /// Blobs in the order in which they were pushed.
    List(Seq<Seq<u8>>),
    /// The members of a set: blobs without order or repetition.
    Members(Set<Seq<u8>>),
    /// Entries in ascending order of their ordinals.
    SortedVec(Seq<Entry>),
}

/// The store as a map from key to item.
pub type StoreMap = Map<Seq<char>, ItemView>;

/// The largest element count that a list or a set reaches.
pub open spec fn max_count() -> int {
    i32::MAX as int
}

/// An item as the store keeps it: the entries of a sorted vector ascend, a set
/// is finite, and the element count of a list or a set fits in `i32`.
pub open spec fn item_ok(item: ItemView) -> bool {
    match item {
        ItemView::List(l) => l.len() <= max_count(),
        ItemView::Members(s) => s.finite() && s.len() <= max_count(),
        ItemView::SortedVec(e) => ascending(e),
        _ => true,
    }
}

/// Every item of the store is as `item_ok` says.
pub open spec fn store_ok(m: StoreMap) -> bool {
    forall|key: Seq<char>| m.contains_key(key) ==> item_ok(#[trigger] m[key])
}

/// The item under `key`, if the key is present.
pub open spec fn lookup(m: StoreMap, key: Seq<char>) -> Option<ItemView> {
    if m.contains_key(key) {
        Some(m[key])
    } else {
        None
    }
}

/// What `incr` returns: the counter after `delta` is added, counting from zero
/// under a key that was absent.
pub open spec fn incr_result(m: StoreMap, key: Seq<char>, delta: i32) -> Result<i32, KvError> {
    match lookup(m, key) {
        None => Ok(delta),
        Some(ItemView::Atomic(x)) => if i32::MIN <= x + delta <= i32::MAX {
            Ok((x + delta) as i32)
        } else {
            Err(KvError::Overflow)
        },
        Some(_) => Err(KvError::TypeMismatch),
    }
}

/// The store after `incr`.
pub open spec fn incr_after(m: StoreMap, key: Seq<char>, delta: i32) -> StoreMap {
    match incr_result(m, key, delta) {
        Ok(n) => m.insert(key, ItemView::Atomic(n)),
        Err(_) => m,
    }
}

/// What `get` returns: the blob of a scalar.
pub open spec fn get_result(m: StoreMap, key: Seq<char>) -> Result<Seq<u8>, KvError> {
    match lookup(m, key) {
        None => Err(KvError::NoSuchKey),
        Some(ItemView::Scalar(b)) => Ok(b),
        Some(_) => Err(KvError::TypeMismatch),
    }
}

/// What `set` returns: it succeeds on an absent key and on a scalar.
pub open spec fn set_result(m: StoreMap, key: Seq<char>) -> Result<(), KvError> {
    match lookup(m, key) {
        None => Ok(()),
        Some(ItemView::Scalar(_)) => Ok(()),
        Some(_) => Err(KvError::TypeMismatch),
    }
}

/// The store after `set`.
pub open spec fn set_after(m: StoreMap, key: Seq<char>, value: Seq<u8>) -> StoreMap {
    match set_result(m, key) {
        Ok(_) => m.insert(key, ItemView::Scalar(value)),
        Err(_) => m,
    }
}

/// The part of a list from `start` to `stop`, after `start` is raised to zero
/// and `stop` lowered to the length; empty where nothing lies between them.
pub open spec fn clamped_range(l: Seq<Seq<u8>>, start: i32, stop: i32) -> Seq<Seq<u8>> {
    let from = if start < 0 { 0 } else { start as int };
    let to = if stop < l.len() { stop as int } else { l.len() as int };
    if from < to {
        l.subrange(from, to)
    } else {
        Seq::empty()
    }
}

/// What `lrange` returns: a part of the list, or nothing under an absent key.
pub open spec fn lrange_result(m: StoreMap, key: Seq<char>, start: i32, stop: i32) -> Result<Seq<Seq<u8>>, KvError> {
    match lookup(m, key) {
        None => Ok(Seq::empty()),
        Some(ItemView::List(l)) => Ok(clamped_range(l, start, stop)),
        Some(_) => Err(KvError::TypeMismatch),
    }
}

/// What `lpush` returns: the length of the list after the push.
pub open spec fn lpush_result(m: StoreMap, key: Seq<char>) -> Result<i32, KvError> {
    match lookup(m, key) {
        None => Ok(1),
        Some(ItemView::List(l)) => if l.len() < max_count() {
            Ok((l.len() + 1) as i32)
        } else {
            Err(KvError::Overflow)
        },
        Some(_) => Err(KvError::TypeMismatch),
    }
}

/// The store after `lpush`.
pub open spec fn lpush_after(m: StoreMap, key: Seq<char>, value: Seq<u8>) -> StoreMap {
    match (lpush_result(m, key), lookup(m, key)) {
        (Ok(_), Some(ItemView::List(l))) => m.insert(key, ItemView::List(l.push(value))),
        (Ok(_), _) => m.insert(key, ItemView::List(seq![value])),
        (Err(_), _) => m,
    }
}

/// What `lrem` returns: the length of the list after every blob equal to
/// `value` is taken out, or zero under an absent key.
pub open spec fn lrem_result(m: StoreMap, key: Seq<char>, value: Seq<u8>) -> Result<i32, KvError> {
    match lookup(m, key) {
        None => Ok(0),
        Some(ItemView::List(l)) => Ok(without(l, value).len() as i32),
        Some(_) => Err(KvError::TypeMismatch),
    }
}

/// The store after `lrem`.
pub open spec fn lrem_after(m: StoreMap, key: Seq<char>, value: Seq<u8>) -> StoreMap {
    match lookup(m, key) {
        Some(ItemView::List(l)) => m.insert(key, ItemView::List(without(l, value))),
        _ => m,
    }
}

/// What `sadd` returns: the cardinality of the set after `value` is added.
pub open spec fn sadd_result(m: StoreMap, key: Seq<char>, value: Seq<u8>) -> Result<i32, KvError> {
    match lookup(m, key) {
        None => Ok(1),
        Some(ItemView::Members(s)) => if s.insert(value).len() <= max_count() {
            Ok(s.insert(value).len() as i32)
        } else {
            Err(KvError::Overflow)
        },
        Some(_) => Err(KvError::TypeMismatch),
    }
}

/// The store after `sadd`.
pub open spec fn sadd_after(m: StoreMap, key: Seq<char>, value: Seq<u8>) -> StoreMap {
    match (sadd_result(m, key, value), lookup(m, key)) {
        (Ok(_), Some(ItemView::Members(s))) => m.insert(key, ItemView::Members(s.insert(value))),
        (Ok(_), _) => m.insert(key, ItemView::Members(set![value])),
        (Err(_), _) => m,
    }
}

/// What `srem` returns: the cardinality of the set after `value` is removed,
/// or zero under an absent key.
pub open spec fn srem_result(m: StoreMap, key: Seq<char>, value: Seq<u8>) -> Result<i32, KvError> {
    match lookup(m, key) {
        None => Ok(0),
        Some(ItemView::Members(s)) => Ok(s.remove(value).len() as i32),
        Some(_) => Err(KvError::TypeMismatch),
    }
}

/// The store after `srem`.
pub open spec fn srem_after(m: StoreMap, key: Seq<char>, value: Seq<u8>) -> StoreMap {
    match lookup(m, key) {
        Some(ItemView::Members(s)) => m.insert(key, ItemView::Members(s.remove(value))),
        _ => m,
    }
}

/// What `smembers` returns: the set, or the empty set under an absent key.
pub open spec fn smembers_result(m: StoreMap, key: Seq<char>) -> Result<Set<Seq<u8>>, KvError> {
    match lookup(m, key) {
        None => Ok(Set::empty()),
        Some(ItemView::Members(s)) => Ok(s),
        Some(_) => Err(KvError::TypeMismatch),
    }
}

/// `key` holds a set.
pub open spec fn holds_set(m: StoreMap, key: Seq<char>) -> bool {
    m.contains_key(key) && m[key] is Members
}

/// `key` holds a set, and `b` is one of its members.
pub open spec fn member_of(m: StoreMap, key: Seq<char>, b: Seq<u8>) -> bool {
    holds_set(m, key) && m[key]->Members_0.contains(b)
}

/// What `sunion` returns: the blobs that are members of the set under at
/// least one of the keys. Keys that hold no set count for nothing.
pub open spec fn sunion_result(m: StoreMap, keys: Seq<Seq<char>>) -> Set<Seq<u8>> {
    Set::new(|b: Seq<u8>| exists|i: int| 0 <= i < keys.len() && member_of(m, #[trigger] keys[i], b))
}

/// At least one of the keys holds a set.
pub open spec fn names_a_set(m: StoreMap, keys: Seq<Seq<char>>) -> bool {
    exists|i: int| 0 <= i < keys.len() && holds_set(m, #[trigger] keys[i])
}

/// The blobs that are members of every set that the keys name.
pub open spec fn common_members(m: StoreMap, keys: Seq<Seq<char>>) -> Set<Seq<u8>> {
    Set::new(
        |b: Seq<u8>|
            forall|i: int| 0 <= i < keys.len() && holds_set(m, #[trigger] keys[i]) ==> member_of(m, keys[i], b),
    )
}

/// What `sinter` returns: the blobs that are members of every set that the
/// keys name. Keys that hold no set count for nothing, and where no key holds
/// one there is nothing to intersect.
pub open spec fn sinter_result(m: StoreMap, keys: Seq<Seq<char>>) -> Result<Set<Seq<u8>>, KvError> {
    if names_a_set(m, keys) {
        Ok(common_members(m, keys))
    } else {
        Err(KvError::IndexOutOfRange)
    }
}

/// What `sv_insert` returns: whether the entry is stored afterwards. It is
/// not where the ordinal is taken and `overwrite` is off.
pub open spec fn sv_insert_result(m: StoreMap, key: Seq<char>, ordinal: i32, overwrite: bool) -> Result<bool, KvError> {
    match lookup(m, key) {
        None => Ok(true),
        Some(ItemView::SortedVec(e)) => Ok(overwrite || !has_ordinal(e, ordinal)),
        Some(_) => Err(KvError::TypeMismatch),
    }
}

/// The store after `sv_insert`.
pub open spec fn sv_insert_after(m: StoreMap, key: Seq<char>, ordinal: i32, payload: Seq<u8>, overwrite: bool) -> StoreMap {
    match lookup(m, key) {
        None => m.insert(key, ItemView::SortedVec(seq![(ordinal, payload)])),
        Some(ItemView::SortedVec(e)) => if overwrite || !has_ordinal(e, ordinal) {
            m.insert(key, ItemView::SortedVec(put_entry(e, ordinal, payload)))
        } else {
            m
        },
        Some(_) => m,
    }
}

/// What `sv_into_vec` returns: the entries in their order, or none under an
/// absent key.
pub open spec fn sv_into_vec_result(m: StoreMap, key: Seq<char>) -> Result<Seq<Entry>, KvError> {
    match lookup(m, key) {
        None => Ok(Seq::empty()),
        Some(ItemView::SortedVec(e)) => Ok(e),
        Some(_) => Err(KvError::TypeMismatch),
    }
}

/// The first `remain` entries, or all of them where there are no more.
pub open spec fn tail_off(e: Seq<Entry>, remain: usize) -> Seq<Entry> {
    if e.len() > remain {
        e.take(remain as int)
    } else {
        e
    }
}

/// What `sv_tail_off` returns: the number of entries that are left, or zero
/// under an absent key.
pub open spec fn sv_tail_off_result(m: StoreMap, key: Seq<char>, remain: usize) -> Result<usize, KvError> {
    match lookup(m, key) {
        None => Ok(0),
        Some(ItemView::SortedVec(e)) => Ok(tail_off(e, remain).len() as usize),
        Some(_) => Err(KvError::TypeMismatch),
    }
}

/// The store after `sv_tail_off`.
pub open spec fn sv_tail_off_after(m: StoreMap, key: Seq<char>, remain: usize) -> StoreMap {
    match lookup(m, key) {
        Some(ItemView::SortedVec(e)) => m.insert(key, ItemView::SortedVec(tail_off(e, remain))),
        _ => m,
    }
}

/// What `sv_remove_item` returns: whether an entry had the payload.
pub open spec fn sv_remove_item_result(m: StoreMap, key: Seq<char>, value: Seq<u8>) -> Result<bool, KvError> {
    match lookup(m, key) {
        None => Ok(false),
        Some(ItemView::SortedVec(e)) => Ok(position_of(e, value) < e.len()),
        Some(_) => Err(KvError::TypeMismatch),
    }
}

/// The store after `sv_remove_item`: the first entry with the payload is gone.
pub open spec fn sv_remove_item_after(m: StoreMap, key: Seq<char>, value: Seq<u8>) -> StoreMap {
    match lookup(m, key) {
        Some(ItemView::SortedVec(e)) => if position_of(e, value) < e.len() {
            m.insert(key, ItemView::SortedVec(e.remove(position_of(e, value))))
        } else {
            m
        },
        _ => m,
    }
}

} // verus!
