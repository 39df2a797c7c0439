//! The store: keys that each own one item, and the operations on them.

use crate::blob::{
    add_missing, blobs, bytes_eq, copy_blobs, copy_bytes, holds_blob, lemma_count, lemma_push, lemma_take_next,
    lemma_without, names, without_blob,
};
use crate::error::KvError;
use crate::model::{
    clamped_range, common_members, get_result, holds_set, incr_after, incr_result, item_ok, lookup, lpush_after,
    lpush_result, lrange_result, lrem_after, lrem_result, max_count, member_of, sadd_after, sadd_result, set_after,
    set_result, sinter_result, smembers_result, srem_after, srem_result, store_ok, sunion_result, sv_insert_after,
    sv_insert_result, sv_into_vec_result, sv_remove_item_after, sv_remove_item_result, sv_tail_off_after,
    sv_tail_off_result, ItemView, StoreMap,
};
use crate::sorted::{
    ascending, entries_of, has_ordinal, is_slot, keyvec_as_vec, keyvec_clone, keyvec_entries, keyvec_get,
    keyvec_insert, keyvec_into_vec, keyvec_new, keyvec_remove_index, lemma_ascending_without, lemma_position_is,
    lemma_put_at_match, lemma_put_at_slot, lemma_put_entry, Entry,
};
use key_vec::KeyVec;
use vstd::hash_map::StringHashMap;
use vstd::prelude::*;

verus! {

/// What a key holds. The shape of an item stays as it was made for as long as
/// the key exists.
pub enum KeyValueItem {
    /// A counter.
    Atomic(i32),
    /// A blob; the last one written.
    Scalar(Vec<u8>),
    /// Blobs in the order in which they were pushed.
    List(Vec<Vec<u8>>),
    /// The members of a set, each of them once.
    Members(Vec<Vec<u8>>),
    /// Entries in ascending order of their ordinals.
    SortedVec(KeyVec<i32, Vec<u8>>),
}

impl View for KeyValueItem {
    type V = ItemView;

    open spec fn view(&self) -> ItemView {
        match self {
            KeyValueItem::Atomic(x) => ItemView::Atomic(*x),
            KeyValueItem::Scalar(b) => ItemView::Scalar(b@),
            KeyValueItem::List(l) => ItemView::List(blobs(l@)),
            KeyValueItem::Members(s) => ItemView::Members(blobs(s@).to_set()),
            KeyValueItem::SortedVec(v) => ItemView::SortedVec(keyvec_entries(*v)),
        }
    }
}

impl KeyValueItem {
    /// The item is as the store keeps it: no member of a set is held twice,
    /// the entries of a sorted vector ascend, and the element count of a list
    /// or a set fits in `i32`.
    pub open spec fn wf(&self) -> bool {
        match self {
            KeyValueItem::List(l) => l@.len() <= max_count(),
            KeyValueItem::Members(s) => blobs(s@).no_duplicates() && s@.len() <= max_count(),
            KeyValueItem::SortedVec(v) => ascending(keyvec_entries(*v)),
            _ => true,
        }
    }

    /// A well-formed item has a view that is `item_ok`, and the members of a
    /// set are as many as the blobs that hold them.
    pub proof fn lemma_view_ok(&self)
        requires
            self.wf(),
        ensures
            item_ok(self@),
            match self {
                KeyValueItem::Members(s) => blobs(s@).to_set().len() == s@.len(),
                _ => true,
            },
    {
        match self {
            KeyValueItem::Members(s) => {
                blobs(s@).unique_seq_to_set();
                vstd::seq_lib::seq_to_set_is_finite(blobs(s@));
            },
            _ => {},
        }
    }
}

/// The model of a result that carries a blob.
pub open spec fn bytes_view(r: Result<Vec<u8>, KvError>) -> Result<Seq<u8>, KvError> {
    match r {
        Ok(b) => Ok(b@),
        Err(e) => Err(e),
    }
}

/// The model of a result that carries blobs in an order.
pub open spec fn list_view(r: Result<Vec<Vec<u8>>, KvError>) -> Result<Seq<Seq<u8>>, KvError> {
    match r {
        Ok(l) => Ok(blobs(l@)),
        Err(e) => Err(e),
    }
}

/// The model of a result that carries the members of a set.
pub open spec fn members_view(r: Result<Vec<Vec<u8>>, KvError>) -> Result<Set<Seq<u8>>, KvError> {
    match r {
        Ok(s) => Ok(blobs(s@).to_set()),
        Err(e) => Err(e),
    }
}

/// The model of a result that carries entries.
pub open spec fn entries_view(r: Result<Vec<(i32, Vec<u8>)>, KvError>) -> Result<Seq<Entry>, KvError> {
    match r {
        Ok(pairs) => Ok(entries_of(pairs@)),
        Err(e) => Err(e),
    }
}

/// No member is listed twice in a result that carries the members of a set.
pub open spec fn lists_each_once(r: Result<Vec<Vec<u8>>, KvError>) -> bool {
    match r {
        Ok(s) => blobs(s@).no_duplicates(),
        Err(_) => true,
    }
}

/// The store: a map from key to item.
pub struct KeyValueStore {
    items: StringHashMap<KeyValueItem>,
}

impl View for KeyValueStore {
    type V = StoreMap;

    closed spec fn view(&self) -> StoreMap {
        Map::new(|key: Seq<char>| self.items@.contains_key(key), |key: Seq<char>| self.items@[key]@)
    }
}

impl KeyValueStore {
    /// Every item of the store is well-formed.
    pub closed spec fn wf(&self) -> bool {
        forall|key: Seq<char>| self.items@.contains_key(key) ==> (#[trigger] self.items@[key]).wf()
    }

    /// The view of a well-formed store is `store_ok`.
    pub proof fn lemma_store_ok(&self)
        requires
            self.wf(),
        ensures
            store_ok(self@),
    {
        assert forall|key: Seq<char>| self@.contains_key(key) implies item_ok(#[trigger] self@[key]) by {
            self.items@[key].lemma_view_ok();
        }
    }

    /// A store without keys.
    pub fn new() -> (store: Self)
        ensures
            store.wf(),
            store@ == StoreMap::empty(),
    {
        let store = KeyValueStore { items: StringHashMap::new() };
        assert(store@ =~= StoreMap::empty());
        store
    }

    /// The item under `key`, if there is one.
    fn find(&self, key: &str) -> (found: Option<&KeyValueItem>)
        requires
            self.wf(),
        ensures
            match found {
                Some(item) => lookup(self@, key@) == Some(item@) && item.wf(),
                None => lookup(self@, key@) is None,
            },
    {
        self.items.get(key)
    }

    /// Stores `item` under `key`, in place of what the key held.
    fn put(&mut self, key: &str, item: KeyValueItem)
        requires
            old(self).wf(),
            item.wf(),
        ensures
            final(self).wf(),
            final(self)@ == old(self)@.insert(key@, item@),
    {
        self.items.insert(key.to_owned(), item);
        assert(self@ =~= old(self)@.insert(key@, item@));
    }

    /// Adds `value` to the counter under `key` and returns the new count. An
    /// absent key starts from zero. A sum outside the range of `i32` is
    /// refused.
    pub fn incr(&mut self, key: &str, value: i32) -> (r: Result<i32, KvError>)
        requires
            old(self).wf(),
        ensures
            final(self).wf(),
            r == incr_result(old(self)@, key@, value),
            final(self)@ == incr_after(old(self)@, key@, value),
    {
        match self.find(key) {
            None => {
                self.put(key, KeyValueItem::Atomic(value));
                Ok(value)
            },
            Some(KeyValueItem::Atomic(count)) => {
                match count.checked_add(value) {
                    Some(sum) => {
                        self.put(key, KeyValueItem::Atomic(sum));
                        Ok(sum)
                    },
                    None => Err(KvError::Overflow),
                }
            },
            Some(_) => Err(KvError::TypeMismatch),
        }
    }

    /// Removes `key` and what it holds, whatever its shape. Nothing happens
    /// where the key is absent.
    pub fn del(&mut self, key: &str) -> (r: Result<(), KvError>)
        requires
            old(self).wf(),
        ensures
            final(self).wf(),
            r is Ok,
            final(self)@ == old(self)@.remove(key@),
    {
        self.items.remove(key);
        assert(self@ =~= old(self)@.remove(key@));
        Ok(())
    }

    /// Whether `key` holds an item, of whatever shape.
    pub fn key_exists(&self, key: &str) -> (r: Result<bool, KvError>)
        requires
            self.wf(),
        ensures
            r == Ok::<bool, KvError>(self@.contains_key(key@)),
    {
        Ok(self.items.contains_key(key))
    }

    /// The blob of the scalar under `key`.
    pub fn get(&self, key: &str) -> (r: Result<Vec<u8>, KvError>)
        requires
            self.wf(),
        ensures
            bytes_view(r) == get_result(self@, key@),
    {
        match self.find(key) {
            None => Err(KvError::NoSuchKey),
            Some(KeyValueItem::Scalar(held)) => Ok(copy_bytes(held)),
            Some(_) => Err(KvError::TypeMismatch),
        }
    }

    /// The blob of the scalar under `key` together with `true`, or an empty
    /// blob together with `false` where the key is absent or holds no scalar.
    pub fn get_or_absent(&self, key: &str) -> (r: (Vec<u8>, bool))
        requires
            self.wf(),
        ensures
            match get_result(self@, key@) {
                Ok(b) => r.0@ == b && r.1,
                Err(_) => r.0@ == Seq::<u8>::empty() && !r.1,
            },
    {
        if !self.items.contains_key(key) {
            (Vec::new(), false)
        } else {
            match self.get(key) {
                Ok(value) => (value, true),
                Err(_) => (Vec::new(), false),
            }
        }
    }

    /// Writes `value` as the scalar under `key`, in place of the blob that a
    /// scalar there held.
    pub fn set(&mut self, key: &str, value: Vec<u8>) -> (r: Result<(), KvError>)
        requires
            old(self).wf(),
        ensures
            final(self).wf(),
            r == set_result(old(self)@, key@),
            final(self)@ == set_after(old(self)@, key@, value@),
    {
        match self.find(key) {
            None => {
                self.put(key, KeyValueItem::Scalar(value));
                Ok(())
            },
            Some(KeyValueItem::Scalar(_)) => {
                self.put(key, KeyValueItem::Scalar(value));
                Ok(())
            },
            Some(_) => Err(KvError::TypeMismatch),
        }
    }

    /// The blobs of the list under `key` from index `start` up to, but not
    /// including, index `stop`. A negative `start` counts as zero, a `stop`
    /// past the end as the length. Nothing is returned where nothing lies
    /// between the two, or where the key is absent.
    pub fn lrange(&self, key: &str, start: i32, stop: i32) -> (r: Result<Vec<Vec<u8>>, KvError>)
        requires
            self.wf(),
        ensures
            list_view(r) == lrange_result(self@, key@, start, stop),
    {
        match self.find(key) {
            None => {
                let part: Vec<Vec<u8>> = Vec::new();
                assert(blobs(part@) =~= Seq::<Seq<u8>>::empty());
                Ok(part)
            },
            Some(KeyValueItem::List(held)) => {
                let from: usize = if start < 0 { 0 } else { start as usize };
                let to: usize = if stop < 0 {
                    0
                } else if (stop as usize) < held.len() {
                    stop as usize
                } else {
                    held.len()
                };
                let mut part: Vec<Vec<u8>> = Vec::new();
                let mut i: usize = from;
                while i < to
                    invariant
                        to <= held.len(),
                        from <= i,
                        from < to ==> i <= to,
                        from < to ==> part@.len() == i - from,
                        from < to ==> blobs(part@) == blobs(held@).subrange(from as int, i as int),
                        from >= to ==> part@.len() == 0,
                    decreases to - i,
                {
                    let ghost before = part@;
                    part.push(copy_bytes(&held[i]));
                    assert forall|j: int| 0 <= j < i + 1 - from implies blobs(part@)[j] == blobs(held@)[from + j] by {
                        if j < i - from {
                            assert(blobs(before)[j] == blobs(held@).subrange(from as int, i as int)[j]);
                        }
                    }
                    assert(blobs(part@) =~= blobs(held@).subrange(from as int, i + 1));
                    i += 1;
                }
                assert(blobs(part@) =~= clamped_range(blobs(held@), start, stop));
                Ok(part)
            },
            Some(_) => Err(KvError::TypeMismatch),
        }
    }

    /// Appends `value` to the list under `key`, which is made where the key
    /// is absent, and returns the new length. A list that already has
    /// `i32::MAX` blobs takes no more.
    pub fn lpush(&mut self, key: &str, value: Vec<u8>) -> (r: Result<i32, KvError>)
        requires
            old(self).wf(),
        ensures
            final(self).wf(),
            r == lpush_result(old(self)@, key@),
            final(self)@ == lpush_after(old(self)@, key@, value@),
    {
        match self.find(key) {
            None => {
                let mut list: Vec<Vec<u8>> = Vec::new();
                list.push(value);
                assert(blobs(list@) =~= seq![value@]);
                self.put(key, KeyValueItem::List(list));
                Ok(1)
            },
            Some(KeyValueItem::List(held)) => {
                if held.len() >= 2147483647 {
                    Err(KvError::Overflow)
                } else {
                    let mut list = copy_blobs(held);
                    assert(list@.len() == blobs(list@).len());
                    list.push(value);
                    assert(blobs(list@) =~= blobs(held@).push(value@));
                    let len = list.len();
                    self.put(key, KeyValueItem::List(list));
                    Ok(len as i32)
                }
            },
            Some(_) => Err(KvError::TypeMismatch),
        }
    }

    /// Takes every blob equal to `value` out of the list under `key` and
    /// returns the length that is left. Under an absent key that is zero, and
    /// nothing is made.
    pub fn lrem(&mut self, key: &str, value: Vec<u8>) -> (r: Result<i32, KvError>)
        requires
            old(self).wf(),
        ensures
            final(self).wf(),
            r == lrem_result(old(self)@, key@, value@),
            final(self)@ == lrem_after(old(self)@, key@, value@),
    {
        match self.find(key) {
            None => Ok(0),
            Some(KeyValueItem::List(held)) => {
                let list = without_blob(held, &value);
                proof {
                    lemma_without(blobs(held@), value@);
                    assert(list@.len() == blobs(list@).len());
                }
                let len = list.len();
                self.put(key, KeyValueItem::List(list));
                Ok(len as i32)
            },
            Some(_) => Err(KvError::TypeMismatch),
        }
    }

    /// Removes the list under `key`: the key is deleted, as `del` deletes it,
    /// whatever it holds.
    pub fn list_clear(&mut self, key: &str) -> (r: Result<(), KvError>)
        requires
            old(self).wf(),
        ensures
            final(self).wf(),
            r is Ok,
            final(self)@ == old(self)@.remove(key@),
    {
        self.del(key)
    }

    /// Adds `value` to the set under `key`, which is made where the key is
    /// absent, and returns the number of members that the set then has. A
    /// set with `i32::MAX` members takes no new one.
    pub fn sadd(&mut self, key: &str, value: Vec<u8>) -> (r: Result<i32, KvError>)
        requires
            old(self).wf(),
        ensures
            final(self).wf(),
            r == sadd_result(old(self)@, key@, value@),
            final(self)@ == sadd_after(old(self)@, key@, value@),
    {
        match self.find(key) {
            None => {
                let mut members: Vec<Vec<u8>> = Vec::new();
                members.push(value);
                proof {
                    assert(blobs(members@) =~= Seq::<Seq<u8>>::empty().push(value@));
                    lemma_push(Seq::<Seq<u8>>::empty(), value@);
                    assert(blobs(members@).to_set() =~= set![value@]);
                }
                self.put(key, KeyValueItem::Members(members));
                Ok(1)
            },
            Some(KeyValueItem::Members(held)) => {
                proof {
                    lemma_count(blobs(held@));
                    lemma_push(blobs(held@), value@);
                }
                if holds_blob(held, &value) {
                    proof {
                        assert(blobs(held@).to_set().insert(value@) =~= blobs(held@).to_set());
                        assert(self@.insert(key@, self@[key@]) =~= self@);
                    }
                    Ok(held.len() as i32)
                } else if held.len() >= 2147483647 {
                    Err(KvError::Overflow)
                } else {
                    let mut members = copy_blobs(held);
                    assert(members@.len() == blobs(members@).len());
                    members.push(value);
                    assert(blobs(members@) =~= blobs(held@).push(value@));
                    let len = members.len();
                    self.put(key, KeyValueItem::Members(members));
                    Ok(len as i32)
                }
            },
            Some(_) => Err(KvError::TypeMismatch),
        }
    }

    /// Removes `value` from the set under `key` and returns the number of
    /// members that are left. Under an absent key that is zero, and nothing
    /// is made.
    pub fn srem(&mut self, key: &str, value: Vec<u8>) -> (r: Result<i32, KvError>)
        requires
            old(self).wf(),
        ensures
            final(self).wf(),
            r == srem_result(old(self)@, key@, value@),
            final(self)@ == srem_after(old(self)@, key@, value@),
    {
        match self.find(key) {
            None => Ok(0),
            Some(KeyValueItem::Members(held)) => {
                let members = without_blob(held, &value);
                proof {
                    lemma_without(blobs(held@), value@);
                    lemma_count(blobs(members@));
                    assert(members@.len() == blobs(members@).len());
                    assert(blobs(members@).to_set() =~= blobs(held@).to_set().remove(value@));
                }
                let len = members.len();
                self.put(key, KeyValueItem::Members(members));
                Ok(len as i32)
            },
            Some(_) => Err(KvError::TypeMismatch),
        }
    }

    /// The members of the set under `key`, each of them once, in no
    /// particular order; none under an absent key.
    pub fn smembers(&self, key: String) -> (r: Result<Vec<Vec<u8>>, KvError>)
        requires
            self.wf(),
        ensures
            members_view(r) == smembers_result(self@, key@),
            lists_each_once(r),
    {
        match self.find(key.as_str()) {
            None => {
                let members: Vec<Vec<u8>> = Vec::new();
                assert(blobs(members@).to_set() =~= Set::<Seq<u8>>::empty());
                Ok(members)
            },
            Some(KeyValueItem::Members(held)) => Ok(copy_blobs(held)),
            Some(_) => Err(KvError::TypeMismatch),
        }
    }

    /// The union of the sets under `keys`, each member once, in no particular
    /// order. A key that is absent or holds something else adds nothing.
    pub fn sunion(&self, keys: Vec<String>) -> (r: Result<Vec<Vec<u8>>, KvError>)
        requires
            self.wf(),
        ensures
            members_view(r) == Ok::<Set<Seq<u8>>, KvError>(sunion_result(self@, names(keys@))),
            lists_each_once(r),
    {
        let mut all: Vec<Vec<u8>> = Vec::new();
        let mut i: usize = 0;
        assert(blobs(all@).to_set() =~= sunion_result(self@, names(keys@).take(0)));
        while i < keys.len()
            invariant
                self.wf(),
                0 <= i <= keys.len(),
                blobs(all@).no_duplicates(),
                blobs(all@).to_set() == sunion_result(self@, names(keys@).take(i as int)),
            decreases keys.len() - i,
        {
            let ghost before = blobs(all@).to_set();
            match self.find(keys[i].as_str()) {
                Some(KeyValueItem::Members(held)) => {
                    add_missing(&mut all, held);
                },
                _ => {},
            }
            proof {
                let m = self@;
                let ks = names(keys@);
                let key = ks[i as int];
                assert(key == keys@[i as int]@);
                let now = blobs(all@).to_set();
                let next = sunion_result(m, ks.take(i + 1));
                assert forall|b: Seq<u8>| now.contains(b) <==> next.contains(b) by {
                    if now.contains(b) {
                        if before.contains(b) {
                            let k = choose|k: int| 0 <= k < ks.take(i as int).len() && member_of(m, #[trigger] ks.take(i as int)[k], b);
                            assert(member_of(m, ks.take(i + 1)[k], b));
                        } else {
                            assert(member_of(m, ks.take(i + 1)[i as int], b));
                        }
                    }
                    if next.contains(b) {
                        let k = choose|k: int| 0 <= k < ks.take(i + 1).len() && member_of(m, #[trigger] ks.take(i + 1)[k], b);
                        if k < i {
                            assert(member_of(m, ks.take(i as int)[k], b));
                        }
                    }
                }
                assert(now =~= next);
            }
            i += 1;
        }
        assert(names(keys@).take(keys.len() as int) =~= names(keys@));
        Ok(all)
    }

    /// Whether `b` is a member of every set that `keys` name.
    fn in_every_set(&self, keys: &Vec<String>, b: &Vec<u8>) -> (yes: bool)
        requires
            self.wf(),
        ensures
            yes == common_members(self@, names(keys@)).contains(b@),
    {
        let mut i: usize = 0;
        while i < keys.len()
            invariant
                self.wf(),
                0 <= i <= keys.len(),
                forall|k: int| 0 <= k < i && holds_set(self@, #[trigger] names(keys@)[k]) ==> member_of(self@, names(keys@)[k], b@),
            decreases keys.len() - i,
        {
            assert(names(keys@)[i as int] == keys@[i as int]@);
            match self.find(keys[i].as_str()) {
                Some(KeyValueItem::Members(held)) => {
                    if !holds_blob(held, b) {
                        assert(holds_set(self@, names(keys@)[i as int]));
                        assert(!member_of(self@, names(keys@)[i as int], b@));
                        return false;
                    }
                },
                _ => {},
            }
            i += 1;
        }
        true
    }

    /// Copies of the blobs of `candidates` that are members of every set that
    /// `keys` name, in the order of `candidates`.
    fn shared_by_all(&self, candidates: &Vec<Vec<u8>>, keys: &Vec<String>) -> (shared: Vec<Vec<u8>>)
        requires
            self.wf(),
            blobs(candidates@).no_duplicates(),
        ensures
            blobs(shared@).no_duplicates(),
            blobs(shared@).to_set() == blobs(candidates@).to_set().intersect(common_members(self@, names(keys@))),
    {
        let mut shared: Vec<Vec<u8>> = Vec::new();
        let mut j: usize = 0;
        let ghost common = common_members(self@, names(keys@));
        assert(blobs(shared@).to_set() =~= blobs(candidates@).take(0).to_set().intersect(common));
        while j < candidates.len()
            invariant
                self.wf(),
                0 <= j <= candidates.len(),
                common == common_members(self@, names(keys@)),
                blobs(candidates@).no_duplicates(),
                blobs(shared@).no_duplicates(),
                blobs(shared@).to_set() == blobs(candidates@).take(j as int).to_set().intersect(common),
            decreases candidates.len() - j,
        {
            let ghost before = blobs(shared@);
            proof {
                lemma_take_next(blobs(candidates@), j as int);
            }
            if self.in_every_set(keys, &candidates[j]) {
                shared.push(copy_bytes(&candidates[j]));
                proof {
                    let b = candidates[j as int]@;
                    assert(blobs(shared@) =~= before.push(b));
                    assert(!before.contains(b)) by {
                        if before.contains(b) {
                            assert(before.to_set().contains(b));
                            assert(blobs(candidates@).take(j as int).to_set().contains(b));
                        }
                    }
                    lemma_push(before, b);
                }
            }
            assert(blobs(shared@).to_set() =~= blobs(candidates@).take(j + 1).to_set().intersect(common));
            j += 1;
        }
        assert(blobs(candidates@).take(candidates.len() as int) =~= blobs(candidates@));
        shared
    }

    /// The intersection of the sets under `keys`, each member once, in no
    /// particular order. A key that is absent or holds something else is
    /// passed over; where that leaves no set at all, the call is refused.
    pub fn sinter(&self, keys: Vec<String>) -> (r: Result<Vec<Vec<u8>>, KvError>)
        requires
            self.wf(),
        ensures
            members_view(r) == sinter_result(self@, names(keys@)),
            lists_each_once(r),
    {
        let mut i: usize = 0;
        while i < keys.len()
            invariant
                self.wf(),
                0 <= i <= keys.len(),
                forall|k: int| 0 <= k < i ==> !holds_set(self@, #[trigger] names(keys@)[k]),
            decreases keys.len() - i,
        {
            assert(names(keys@)[i as int] == keys@[i as int]@);
            match self.find(keys[i].as_str()) {
                Some(KeyValueItem::Members(held)) => {
                    let shared = self.shared_by_all(held, &keys);
                    proof {
                        let ks = names(keys@);
                        assert(holds_set(self@, ks[i as int]));
                        assert forall|b: Seq<u8>| common_members(self@, ks).contains(b) implies blobs(
                            held@,
                        ).to_set().contains(b) by {
                            assert(member_of(self@, ks[i as int], b));
                        }
                        assert(blobs(shared@).to_set() =~= common_members(self@, ks));
                    }
                    return Ok(shared);
                },
                _ => {},
            }
            i += 1;
        }
        Err(KvError::IndexOutOfRange)
    }

    /// Puts an entry into the sorted vector under `key`, which is made where
    /// the key is absent. An entry with a new ordinal takes its place in the
    /// order. Where the ordinal is taken, the payload is replaced if
    /// `overwrite` is on, and nothing changes if it is off. The result says
    /// whether the entry is stored afterwards.
    pub fn sv_insert(&mut self, key: &str, value: &(i32, Vec<u8>), overwrite: bool) -> (r: Result<bool, KvError>)
        requires
            old(self).wf(),
        ensures
            final(self).wf(),
            r == sv_insert_result(old(self)@, key@, value.0, overwrite),
            final(self)@ == sv_insert_after(old(self)@, key@, value.0, value.1@, overwrite),
    {
        match self.find(key) {
            None => {
                let mut entries = keyvec_new();
                let _ = keyvec_insert(&mut entries, value.0, copy_bytes(&value.1));
                proof {
                    assert(keyvec_entries(entries) =~= seq![(value.0, value.1@)]);
                }
                self.put(key, KeyValueItem::SortedVec(entries));
                Ok(true)
            },
            Some(KeyValueItem::SortedVec(held)) => {
                let ghost before = keyvec_entries(*held);
                if !overwrite && keyvec_get(held, value.0).is_some() {
                    Ok(false)
                } else {
                    let mut entries = keyvec_clone(held);
                    let previous = keyvec_insert(&mut entries, value.0, copy_bytes(&value.1));
                    proof {
                        lemma_put_entry(before, value.0, value.1@);
                        match previous {
                            Some(p) => {
                                let i = choose|i: int|
                                    0 <= i < before.len() && #[trigger] before[i] == (value.0, p@)
                                        && keyvec_entries(entries) == before.update(i, (value.0, value.1@));
                                lemma_put_at_match(before, value.0, value.1@, i);
                            },
                            None => {
                                let i = choose|i: int|
                                    #[trigger] is_slot(before, value.0, i) && keyvec_entries(entries)
                                        == before.insert(i, (value.0, value.1@));
                                lemma_put_at_slot(before, value.0, value.1@, i);
                                assert(!has_ordinal(before, value.0)) by {
                                    if has_ordinal(before, value.0) {
                                        let j = choose|j: int| 0 <= j < before.len() && before[j].0 == value.0;
                                        assert(j < i || i <= j);
                                    }
                                }
                            },
                        }
                    }
                    self.put(key, KeyValueItem::SortedVec(entries));
                    Ok(true)
                }
            },
            Some(_) => Err(KvError::TypeMismatch),
        }
    }

    /// All entries of the sorted vector under `key`, in ascending order of
    /// their ordinals; none under an absent key.
    pub fn sv_into_vec(&self, key: &str) -> (r: Result<Vec<(i32, Vec<u8>)>, KvError>)
        requires
            self.wf(),
        ensures
            entries_view(r) == sv_into_vec_result(self@, key@),
            r is Ok ==> ascending(entries_of(r->Ok_0@)),
    {
        match self.find(key) {
            None => {
                let pairs: Vec<(i32, Vec<u8>)> = Vec::new();
                assert(entries_of(pairs@) =~= Seq::<Entry>::empty());
                Ok(pairs)
            },
            Some(KeyValueItem::SortedVec(held)) => Ok(keyvec_into_vec(keyvec_clone(held))),
            Some(_) => Err(KvError::TypeMismatch),
        }
    }

    /// Cuts the sorted vector under `key` down to its first `remain` entries,
    /// those with the lowest ordinals. A vector with no more entries than
    /// that stays as it is. The result is the number of entries left, and
    /// zero under an absent key, where nothing is made.
    pub fn sv_tail_off(&mut self, key: &str, remain: usize) -> (r: Result<usize, KvError>)
        requires
            old(self).wf(),
        ensures
            final(self).wf(),
            r == sv_tail_off_result(old(self)@, key@, remain),
            final(self)@ == sv_tail_off_after(old(self)@, key@, remain),
    {
        match self.find(key) {
            None => Ok(0),
            Some(KeyValueItem::SortedVec(held)) => {
                let ghost before = keyvec_entries(*held);
                let len = keyvec_as_vec(held).len();
                if len > remain {
                    let mut entries = keyvec_clone(held);
                    let mut i: usize = len;
                    assert(before.take(len as int) =~= before);
                    while i > remain
                        invariant
                            remain <= i <= len,
                            len == before.len(),
                            keyvec_entries(entries) == before.take(i as int),
                        decreases i,
                    {
                        let _ = keyvec_remove_index(&mut entries, i - 1);
                        assert(before.take(i as int).remove(i - 1) =~= before.take(i - 1));
                        i = i - 1;
                    }
                    proof {
                        lemma_ascending_without(before, remain as int);
                    }
                    self.put(key, KeyValueItem::SortedVec(entries));
                    Ok(remain)
                } else {
                    assert(self@.insert(key@, self@[key@]) =~= self@);
                    Ok(len)
                }
            },
            Some(_) => Err(KvError::TypeMismatch),
        }
    }

    /// Takes the first entry whose payload is `value` out of the sorted
    /// vector under `key`, going by ascending ordinals. The result says
    /// whether there was one; under an absent key there is none.
    pub fn sv_remove_item(&mut self, key: &str, value: Vec<u8>) -> (r: Result<bool, KvError>)
        requires
            old(self).wf(),
        ensures
            final(self).wf(),
            r == sv_remove_item_result(old(self)@, key@, value@),
            final(self)@ == sv_remove_item_after(old(self)@, key@, value@),
    {
        match self.find(key) {
            None => Ok(false),
            Some(KeyValueItem::SortedVec(held)) => {
                let ghost before = keyvec_entries(*held);
                let pairs = keyvec_as_vec(held);
                let mut i: usize = 0;
                while i < pairs.len() && !bytes_eq(&pairs[i].1, &value)
                    invariant
                        0 <= i <= pairs.len(),
                        entries_of(pairs@) == before,
                        forall|j: int| 0 <= j < i ==> before[j].1 != value@,
                    decreases pairs.len() - i,
                {
                    assert(before[i as int].1 == pairs@[i as int].1@);
                    i += 1;
                }
                proof {
                    if i < pairs.len() {
                        assert(before[i as int].1 == pairs@[i as int].1@);
                    }
                    lemma_position_is(before, value@, i as int);
                }
                if i < pairs.len() {
                    let mut entries = keyvec_clone(held);
                    let _ = keyvec_remove_index(&mut entries, i);
                    proof {
                        lemma_ascending_without(before, i as int);
                    }
                    self.put(key, KeyValueItem::SortedVec(entries));
                    Ok(true)
                } else {
                    Ok(false)
                }
            },
            Some(_) => Err(KvError::TypeMismatch),
        }
    }
}

} // verus!
