//! Entries sorted by ordinal: their model as a sequence, and the `KeyVec` that
//! holds them at run time.

use core::ops::Deref;
use key_vec::KeyVec;
use vstd::prelude::*;

verus! {

/// One entry of a sorted vector in the model: its ordinal and its payload.
pub type Entry = (i32, Seq<u8>);

/// Ordinals rise strictly from each entry to the next, so none occurs twice.
pub open spec fn ascending(e: Seq<Entry>) -> bool {
    forall|i: int, j: int| 0 <= i < j < e.len() ==> e[i].0 < e[j].0
}

/// Some entry of `e` has the ordinal `ordinal`.
pub open spec fn has_ordinal(e: Seq<Entry>, ordinal: i32) -> bool {
    exists|i: int| 0 <= i < e.len() && e[i].0 == ordinal
}

/// `i` is the place of a new entry with `ordinal`: every entry before `i` has
/// a lower ordinal, every entry from `i` on a higher one.
pub open spec fn is_slot(e: Seq<Entry>, ordinal: i32, i: int) -> bool {
    &&& 0 <= i <= e.len()
    &&& forall|j: int| 0 <= j < i ==> e[j].0 < ordinal
    &&& forall|j: int| i <= j < e.len() ==> ordinal < e[j].0
}

/// The entries after `(ordinal, payload)` is put into `e`: the payload
/// replaces the one stored under `ordinal`, or the entry takes its place in
/// the order.
pub open spec fn put_entry(e: Seq<Entry>, ordinal: i32, payload: Seq<u8>) -> Seq<Entry>
    decreases e.len(),
{
    if e.len() == 0 {
        seq![(ordinal, payload)]
    } else if e.last().0 < ordinal {
        e.push((ordinal, payload))
    } else if e.last().0 == ordinal {
        e.drop_last().push((ordinal, payload))
    } else {
        put_entry(e.drop_last(), ordinal, payload).push(e.last())
    }
}

/// The index of the first entry of `e` whose payload is `payload`, or the
/// length of `e` where there is none.
pub open spec fn position_of(e: Seq<Entry>, payload: Seq<u8>) -> int
    decreases e.len(),
{
    if e.len() == 0 {
        0
    } else if e[0].1 == payload {
        0
    } else {
        1 + position_of(e.drop_first(), payload)
    }
}

/// The model of a vector of pairs: each payload is taken by its view.
pub open spec fn entries_of(pairs: Seq<(i32, Vec<u8>)>) -> Seq<Entry> {
    Seq::new(pairs.len(), |i: int| (pairs[i].0, pairs[i].1@))
}

/// Putting an entry keeps the order strict. The new entry is then stored,
/// every entry with another ordinal stays, and the length grows by one exactly
/// when the ordinal is new.
pub proof fn lemma_put_entry(e: Seq<Entry>, ordinal: i32, payload: Seq<u8>)
    requires
        ascending(e),
    ensures
        ascending(put_entry(e, ordinal, payload)),
        put_entry(e, ordinal, payload).contains((ordinal, payload)),
        forall|x: Entry| x.0 != ordinal ==> (put_entry(e, ordinal, payload).contains(x) <==> e.contains(x)),
        forall|x: Entry| #[trigger] put_entry(e, ordinal, payload).contains(x) && x.0 == ordinal ==> x.1 == payload,
        put_entry(e, ordinal, payload).len() == e.len() + (if has_ordinal(e, ordinal) { 0int } else { 1int }),
    decreases e.len(),
{
    let x0 = (ordinal, payload);
    let r = put_entry(e, ordinal, payload);
    if e.len() == 0 {
        assert(r[0] == x0);
    } else if e.last().0 < ordinal {
        assert(r[e.len() as int] == x0);
        assert forall|x: Entry| x.0 != ordinal implies (r.contains(x) <==> e.contains(x)) by {
            if e.contains(x) {
                let i = choose|i: int| 0 <= i < e.len() && e[i] == x;
                assert(r[i] == x);
            }
        }
        assert(!has_ordinal(e, ordinal)) by {
            if has_ordinal(e, ordinal) {
                let i = choose|i: int| 0 <= i < e.len() && e[i].0 == ordinal;
                assert(i < e.len() - 1 ==> e[i].0 < e[e.len() - 1].0);
            }
        }
    } else if e.last().0 == ordinal {
        let n = e.len() - 1;
        assert(r[n] == x0);
        assert(has_ordinal(e, ordinal)) by {
            assert(e[n].0 == ordinal);
        }
        assert forall|x: Entry| x.0 != ordinal implies (r.contains(x) <==> e.contains(x)) by {
            if e.contains(x) {
                let i = choose|i: int| 0 <= i < e.len() && e[i] == x;
                assert(r[i] == x);
            }
            if r.contains(x) {
                let i = choose|i: int| 0 <= i < r.len() && r[i] == x;
                assert(e[i] == x);
            }
        }
        assert forall|x: Entry| #[trigger] r.contains(x) && x.0 == ordinal implies x.1 == payload by {
            let i = choose|i: int| 0 <= i < r.len() && r[i] == x;
            assert(i < n ==> e[i].0 < e[n].0);
        }
    } else {
        let n = e.len() - 1;
        let front = e.drop_last();
        let mid = put_entry(front, ordinal, payload);
        assert(ascending(front)) by {
            assert forall|i: int, j: int| 0 <= i < j < front.len() implies front[i].0 < front[j].0 by {
                assert(e[i].0 < e[j].0);
            }
        }
        lemma_put_entry(front, ordinal, payload);
        assert(r == mid.push(e.last()));
        assert forall|i: int, j: int| 0 <= i < j < r.len() implies r[i].0 < r[j].0 by {
            if j == mid.len() {
                let x = mid[i];
                assert(mid.contains(x));
                if x.0 != ordinal {
                    assert(front.contains(x));
                    let k = choose|k: int| 0 <= k < front.len() && front[k] == x;
                    assert(e[k].0 < e[n].0);
                }
            }
        }
        assert(r.contains(x0)) by {
            let i = choose|i: int| 0 <= i < mid.len() && mid[i] == x0;
            assert(r[i] == x0);
        }
        assert forall|x: Entry| x.0 != ordinal implies (r.contains(x) <==> e.contains(x)) by {
            if e.contains(x) {
                let i = choose|i: int| 0 <= i < e.len() && e[i] == x;
                if i < n {
                    assert(front[i] == x);
                    assert(front.contains(x));
                    let k = choose|k: int| 0 <= k < mid.len() && mid[k] == x;
                    assert(r[k] == x);
                } else {
                    assert(r[mid.len() as int] == x);
                }
            }
            if r.contains(x) {
                let i = choose|i: int| 0 <= i < r.len() && r[i] == x;
                if i < mid.len() {
                    assert(mid[i] == x);
                    assert(mid.contains(x));
                    assert(front.contains(x));
                    let k = choose|k: int| 0 <= k < front.len() && front[k] == x;
                    assert(e[k] == x);
                } else {
                    assert(e[n] == x);
                }
            }
        }
        assert forall|x: Entry| #[trigger] r.contains(x) && x.0 == ordinal implies x.1 == payload by {
            let i = choose|i: int| 0 <= i < r.len() && r[i] == x;
            if i < mid.len() {
                assert(mid[i] == x);
                assert(mid.contains(x));
            }
        }
        assert(has_ordinal(e, ordinal) == has_ordinal(front, ordinal)) by {
            if has_ordinal(e, ordinal) {
                let i = choose|i: int| 0 <= i < e.len() && e[i].0 == ordinal;
                assert(front[i].0 == ordinal);
            }
            if has_ordinal(front, ordinal) {
                let i = choose|i: int| 0 <= i < front.len() && front[i].0 == ordinal;
                assert(e[i].0 == ordinal);
            }
        }
    }
}

/// Where the ordinal is new and `i` is its place, putting the entry inserts it
/// at `i`.
pub proof fn lemma_put_at_slot(e: Seq<Entry>, ordinal: i32, payload: Seq<u8>, i: int)
    requires
        is_slot(e, ordinal, i),
    ensures
        put_entry(e, ordinal, payload) == e.insert(i, (ordinal, payload)),
    decreases e.len(),
{
    let x0 = (ordinal, payload);
    if e.len() == 0 {
        assert(seq![x0] =~= e.insert(i, x0));
    } else if e.last().0 < ordinal {
        assert(i == e.len()) by {
            if i < e.len() {
                assert(ordinal < e[e.len() - 1].0);
            }
        }
        assert(e.push(x0) =~= e.insert(i, x0));
    } else if e.last().0 == ordinal {
        if i < e.len() {
            assert(ordinal < e[e.len() - 1].0);
        } else {
            assert(e[e.len() - 1].0 < ordinal);
        }
    } else {
        let front = e.drop_last();
        assert(i < e.len()) by {
            if i == e.len() {
                assert(e[e.len() - 1].0 < ordinal);
            }
        }
        assert(is_slot(front, ordinal, i)) by {
            assert forall|j: int| 0 <= j < i implies front[j].0 < ordinal by {
                assert(e[j].0 < ordinal);
            }
            assert forall|j: int| i <= j < front.len() implies ordinal < front[j].0 by {
                assert(ordinal < e[j].0);
            }
        }
        lemma_put_at_slot(front, ordinal, payload, i);
        assert(front.insert(i, x0).push(e.last()) =~= e.insert(i, x0));
    }
}

/// Where the entry at `i` has the ordinal, putting the entry replaces that
/// entry and moves nothing.
pub proof fn lemma_put_at_match(e: Seq<Entry>, ordinal: i32, payload: Seq<u8>, i: int)
    requires
        ascending(e),
        0 <= i < e.len(),
        e[i].0 == ordinal,
    ensures
        put_entry(e, ordinal, payload) == e.update(i, (ordinal, payload)),
    decreases e.len(),
{
    let x0 = (ordinal, payload);
    let n = e.len() - 1;
    if e.last().0 < ordinal {
        assert(i < n ==> e[i].0 < e[n].0);
    } else if e.last().0 == ordinal {
        assert(i < n ==> e[i].0 < e[n].0);
        assert(e.drop_last().push(x0) =~= e.update(i, x0));
    } else {
        let front = e.drop_last();
        assert(ascending(front)) by {
            assert forall|a: int, b: int| 0 <= a < b < front.len() implies front[a].0 < front[b].0 by {
                assert(e[a].0 < e[b].0);
            }
        }
        lemma_put_at_match(front, ordinal, payload, i);
        assert(front.update(i, x0).push(e.last()) =~= e.update(i, x0));
    }
}

/// `position_of` finds the first entry with the payload: no entry before it
/// has the payload, and the entry there has it unless the position is the
/// length.
pub proof fn lemma_position_of(e: Seq<Entry>, payload: Seq<u8>)
    ensures
        0 <= position_of(e, payload) <= e.len(),
        forall|j: int| 0 <= j < position_of(e, payload) ==> e[j].1 != payload,
        position_of(e, payload) < e.len() ==> e[position_of(e, payload)].1 == payload,
    decreases e.len(),
{
    if e.len() > 0 && e[0].1 != payload {
        let rest = e.drop_first();
        lemma_position_of(rest, payload);
        assert forall|j: int| 0 <= j < position_of(e, payload) implies e[j].1 != payload by {
            if j > 0 {
                assert(rest[j - 1].1 != payload);
            }
        }
        if position_of(e, payload) < e.len() {
            assert(rest[position_of(rest, payload)] == e[position_of(e, payload)]);
        }
    }
}

/// An index with the payload behind which no earlier entry has it is the one
/// that `position_of` gives; where no entry has the payload, it gives the
/// length.
pub proof fn lemma_position_is(e: Seq<Entry>, payload: Seq<u8>, i: int)
    requires
        0 <= i <= e.len(),
        forall|j: int| 0 <= j < i ==> e[j].1 != payload,
        i < e.len() ==> e[i].1 == payload,
    ensures
        position_of(e, payload) == i,
{
    lemma_position_of(e, payload);
    let p = position_of(e, payload);
    if p < i {
        assert(e[p].1 != payload);
    } else if i < p {
        assert(e[i].1 != payload);
    }
}

/// Leaving entries out keeps the order strict: both a prefix of ascending
/// entries and what remains when one entry is removed are ascending.
pub proof fn lemma_ascending_without(e: Seq<Entry>, i: int)
    requires
        ascending(e),
        0 <= i <= e.len(),
    ensures
        ascending(e.take(i)),
        i < e.len() ==> ascending(e.remove(i)),
{
    assert forall|a: int, b: int| 0 <= a < b < e.take(i).len() implies e.take(i)[a].0 < e.take(i)[b].0 by {
        assert(e[a].0 < e[b].0);
    }
    if i < e.len() {
        let r = e.remove(i);
        assert forall|a: int, b: int| 0 <= a < b < r.len() implies r[a].0 < r[b].0 by {
            let a2 = if a < i { a } else { a + 1 };
            let b2 = if b < i { b } else { b + 1 };
            assert(e[a2].0 < e[b2].0);
        }
    }
}

/// Declares `key_vec::KeyVec` as a type whose fields are not looked into.
/// What a value of it holds is spoken of through `keyvec_entries` alone.
#[verifier::external_type_specification]
#[verifier::external_body]
#[verifier::reject_recursive_types(K)]
#[verifier::reject_recursive_types(V)]
pub struct ExKeyVec<K, V>(KeyVec<K, V>);

/// The entries that a `KeyVec` holds, in the order in which it holds them.
pub uninterp spec fn keyvec_entries(v: KeyVec<i32, Vec<u8>>) -> Seq<(i32, Seq<u8>)>;

/// Calls `KeyVec::new`, which makes a vector without entries.
#[verifier::external_body]
pub(crate) fn keyvec_new() -> (v: KeyVec<i32, Vec<u8>>)
    ensures
        keyvec_entries(v) == Seq::<Entry>::empty(),
{
    KeyVec::new()
}

/// Calls `KeyVec::insert`, which searches the entries by bisection. Where an
/// entry has the ordinal, its payload is exchanged for the new one and handed
/// back; no entry moves. Where none has it, the new entry is inserted at its
/// place in the order and nothing is handed back. The search is only
/// meaningful on ascending entries, which the caller has to show.
#[verifier::external_body]
pub(crate) fn keyvec_insert(v: &mut KeyVec<i32, Vec<u8>>, ordinal: i32, payload: Vec<u8>) -> (previous: Option<Vec<u8>>)
    requires
        ascending(keyvec_entries(*old(v))),
    ensures
        match previous {
            Some(p) => exists|i: int|
                0 <= i < keyvec_entries(*old(v)).len()
                && #[trigger] keyvec_entries(*old(v))[i] == (ordinal, p@)
                && keyvec_entries(*final(v)) == keyvec_entries(*old(v)).update(i, (ordinal, payload@)),
            None => exists|i: int|
                #[trigger] is_slot(keyvec_entries(*old(v)), ordinal, i)
                && keyvec_entries(*final(v)) == keyvec_entries(*old(v)).insert(i, (ordinal, payload@)),
        },
{
    v.insert(ordinal, payload)
}

/// Calls `KeyVec::get`, which searches the entries by bisection and hands back
/// the payload stored under the ordinal, or nothing where no entry has it. The
/// search is only meaningful on ascending entries, which the caller has to
/// show.
#[verifier::external_body]
pub(crate) fn keyvec_get(v: &KeyVec<i32, Vec<u8>>, ordinal: i32) -> (found: Option<&Vec<u8>>)
    requires
        ascending(keyvec_entries(*v)),
    ensures
        match found {
            Some(p) => exists|i: int|
                0 <= i < keyvec_entries(*v).len() && #[trigger] keyvec_entries(*v)[i] == (ordinal, p@),
            None => !has_ordinal(keyvec_entries(*v), ordinal),
        },
{
    v.get(&ordinal)
}

/// Calls `KeyVec::deref`, which lends the vector of pairs that the `KeyVec`
/// keeps: the same entries in the same order.
#[verifier::external_body]
pub(crate) fn keyvec_as_vec(v: &KeyVec<i32, Vec<u8>>) -> (pairs: &Vec<(i32, Vec<u8>)>)
    ensures
        entries_of(pairs@) == keyvec_entries(*v),
{
    v.deref()
}

/// Calls `KeyVec::remove_index`, which takes the entry at `index` out, closes
/// the gap and hands the entry back. It panics on an index past the end, so
/// the caller has to show that the index is in range.
#[verifier::external_body]
pub(crate) fn keyvec_remove_index(v: &mut KeyVec<i32, Vec<u8>>, index: usize) -> (removed: (i32, Vec<u8>))
    requires
        index < keyvec_entries(*old(v)).len(),
    ensures
        (removed.0, removed.1@) == keyvec_entries(*old(v))[index as int],
        keyvec_entries(*final(v)) == keyvec_entries(*old(v)).remove(index as int),
{
    v.remove_index(index)
}

/// Calls `KeyVec::clone`, which copies the vector of pairs: the copy holds the
/// same entries in the same order.
#[verifier::external_body]
pub(crate) fn keyvec_clone(v: &KeyVec<i32, Vec<u8>>) -> (copy: KeyVec<i32, Vec<u8>>)
    ensures
        keyvec_entries(copy) == keyvec_entries(*v),
{
    v.clone()
}

/// Calls `KeyVec::into_vec`, which gives up the vector of pairs that the
/// `KeyVec` kept: the same entries in the same order.
#[verifier::external_body]
pub(crate) fn keyvec_into_vec(v: KeyVec<i32, Vec<u8>>) -> (pairs: Vec<(i32, Vec<u8>)>)
    ensures
        entries_of(pairs@) == keyvec_entries(v),
{
    v.into_vec()
}

} // verus!
