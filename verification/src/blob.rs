//! Byte blobs and vectors of them: their models, and the loops that compare,
//! copy and search them.

use vstd::prelude::*;

verus! {

/// The model of a vector of blobs: each blob is taken by its view.
pub open spec fn blobs(v: Seq<Vec<u8>>) -> Seq<Seq<u8>> {
    Seq::new(v.len(), |i: int| v[i]@)
}

/// What is left of `l` when every blob equal to `value` is taken out. The
/// other blobs keep their order.
pub open spec fn without(l: Seq<Seq<u8>>, value: Seq<u8>) -> Seq<Seq<u8>> {
    l.filter(|b: Seq<u8>| b != value)
}

/// The names that a vector of keys holds: each key is taken by its view.
pub open spec fn names(keys: Seq<String>) -> Seq<Seq<char>> {
    Seq::new(keys.len(), |i: int| keys[i]@)
}

/// Taking a value out of a list leaves exactly the blobs that differ from it,
/// and none of them more often than before.
pub proof fn lemma_without(l: Seq<Seq<u8>>, value: Seq<u8>)
    ensures
        !without(l, value).contains(value),
        forall|b: Seq<u8>|
            #![trigger without(l, value).contains(b)]
            #![trigger l.contains(b)]
            b != value ==> (without(l, value).contains(b) <==> l.contains(b)),
        without(l, value).len() <= l.len(),
        l.no_duplicates() ==> without(l, value).no_duplicates(),
    decreases l.len(),
{
    reveal(Seq::filter);
    let r = without(l, value);
    if l.len() > 0 {
        let front = l.drop_last();
        let sub = without(front, value);
        lemma_without(front, value);
        assert forall|b: Seq<u8>| b != value implies (r.contains(b) <==> l.contains(b)) by {
            if l.contains(b) {
                let i = choose|i: int| 0 <= i < l.len() && l[i] == b;
                if i < front.len() {
                    assert(front[i] == b);
                    assert(front.contains(b));
                    let k = choose|k: int| 0 <= k < sub.len() && sub[k] == b;
                    assert(r[k] == b);
                } else {
                    assert(r[sub.len() as int] == b);
                }
            }
            if r.contains(b) {
                let i = choose|i: int| 0 <= i < r.len() && r[i] == b;
                if i < sub.len() {
                    assert(sub[i] == b);
                    assert(sub.contains(b));
                    let k = choose|k: int| 0 <= k < front.len() && front[k] == b;
                    assert(l[k] == b);
                } else {
                    assert(l[l.len() - 1] == b);
                }
            }
        }
        if r.contains(value) {
            let i = choose|i: int| 0 <= i < r.len() && r[i] == value;
            if i < sub.len() {
                assert(sub[i] == value);
                assert(sub.contains(value));
            }
        }
        if l.no_duplicates() {
            assert(front.no_duplicates()) by {
                assert forall|i: int, j: int| 0 <= i < front.len() && 0 <= j < front.len() && i != j implies front[i] != front[j] by {
                    assert(l[i] != l[j]);
                }
            }
            if l.last() != value {
                assert forall|i: int, j: int| 0 <= i < r.len() && 0 <= j < r.len() && i != j implies r[i] != r[j] by {
                    if i == sub.len() || j == sub.len() {
                        let k = if i == sub.len() { j } else { i };
                        assert(sub[k] == r[k]);
                        assert(sub.contains(r[k]));
                        assert(front.contains(r[k]));
                        let m = choose|m: int| 0 <= m < front.len() && front[m] == r[k];
                        assert(l[m] != l[l.len() - 1]);
                    } else {
                        assert(sub[i] != sub[j]);
                    }
                }
            }
        }
    }
}

/// Blobs that are listed once each are as many as the set they make, and that
/// set is finite.
pub proof fn lemma_count(l: Seq<Seq<u8>>)
    requires
        l.no_duplicates(),
    ensures
        l.to_set().finite(),
        l.to_set().len() == l.len(),
{
    l.unique_seq_to_set();
    vstd::seq_lib::seq_to_set_is_finite(l);
}

/// A blob pushed behind a list joins the set that the list makes. Where the
/// list held each blob once and the new one not at all, it still does.
pub proof fn lemma_push(l: Seq<Seq<u8>>, b: Seq<u8>)
    ensures
        l.push(b).to_set() == l.to_set().insert(b),
        l.no_duplicates() && !l.contains(b) ==> l.push(b).no_duplicates(),
{
    l.lemma_push_to_set_commute(b);
    if l.no_duplicates() && !l.contains(b) {
        assert forall|i: int, j: int| 0 <= i < l.len() + 1 && 0 <= j < l.len() + 1 && i != j implies l.push(b)[i]
            != l.push(b)[j] by {
            if i < l.len() && j < l.len() {
                assert(l[i] != l[j]);
            } else {
                let k = if i < l.len() { i } else { j };
                assert(l.contains(l[k]));
            }
        }
    }
}

/// One blob more of a list, taken from the front, is one member more of the
/// set.
pub proof fn lemma_take_next(l: Seq<Seq<u8>>, i: int)
    requires
        0 <= i < l.len(),
    ensures
        l.take(i + 1).to_set() == l.take(i).to_set().insert(l[i]),
        l.no_duplicates() ==> !l.take(i).contains(l[i]),
{
    assert(l.take(i + 1) =~= l.take(i).push(l[i]));
    lemma_push(l.take(i), l[i]);
    if l.no_duplicates() && l.take(i).contains(l[i]) {
        let k = choose|k: int| 0 <= k < l.take(i).len() && l.take(i)[k] == l[i];
        assert(l[k] != l[i]);
    }
}

/// Whether two blobs hold the same bytes.
pub(crate) fn bytes_eq(a: &Vec<u8>, b: &Vec<u8>) -> (same: bool)
    ensures
        same == (a@ == b@),
{
    if a.len() != b.len() {
        return false;
    }
    let mut i: usize = 0;
    while i < a.len()
        invariant
            a.len() == b.len(),
            0 <= i <= a.len(),
            forall|j: int| 0 <= j < i ==> a@[j] == b@[j],
        decreases a.len() - i,
    {
        if a[i] != b[i] {
            return false;
        }
        i += 1;
    }
    assert(a@ =~= b@);
    true
}

/// A copy of a blob.
pub(crate) fn copy_bytes(a: &Vec<u8>) -> (copy: Vec<u8>)
    ensures
        copy@ == a@,
{
    let mut copy: Vec<u8> = Vec::new();
    let mut i: usize = 0;
    while i < a.len()
        invariant
            0 <= i <= a.len(),
            copy@ == a@.take(i as int),
        decreases a.len() - i,
    {
        copy.push(a[i]);
        assert(copy@ =~= a@.take(i + 1));
        i += 1;
    }
    assert(a@.take(a.len() as int) =~= a@);
    copy
}

/// A copy of a vector of blobs, in the same order.
pub(crate) fn copy_blobs(l: &Vec<Vec<u8>>) -> (copy: Vec<Vec<u8>>)
    ensures
        blobs(copy@) == blobs(l@),
{
    let mut copy: Vec<Vec<u8>> = Vec::new();
    let mut i: usize = 0;
    while i < l.len()
        invariant
            0 <= i <= l.len(),
            copy@.len() == i,
            blobs(copy@) == blobs(l@).take(i as int),
        decreases l.len() - i,
    {
        let ghost before = copy@;
        let b = copy_bytes(&l[i]);
        copy.push(b);
        assert forall|j: int| 0 <= j < i + 1 implies blobs(copy@)[j] == blobs(l@)[j] by {
            if j < i {
                assert(blobs(before)[j] == blobs(l@).take(i as int)[j]);
            }
        }
        assert(blobs(copy@) =~= blobs(l@).take(i + 1));
        i += 1;
    }
    assert(blobs(l@).take(l.len() as int) =~= blobs(l@));
    copy
}

/// Whether a vector of blobs holds a blob with the bytes of `value`.
pub(crate) fn holds_blob(l: &Vec<Vec<u8>>, value: &Vec<u8>) -> (found: bool)
    ensures
        found == blobs(l@).contains(value@),
{
    let mut i: usize = 0;
    while i < l.len()
        invariant
            0 <= i <= l.len(),
            forall|j: int| 0 <= j < i ==> blobs(l@)[j] != value@,
        decreases l.len() - i,
    {
        if bytes_eq(&l[i], value) {
            assert(blobs(l@)[i as int] == value@);
            return true;
        }
        i += 1;
    }
    false
}

/// Copies of the blobs of `l` that differ from `value`, in the same order.
pub(crate) fn without_blob(l: &Vec<Vec<u8>>, value: &Vec<u8>) -> (rest: Vec<Vec<u8>>)
    ensures
        blobs(rest@) == without(blobs(l@), value@),
{
    let mut rest: Vec<Vec<u8>> = Vec::new();
    let mut i: usize = 0;
    proof {
        reveal(Seq::filter);
        assert(blobs(rest@) =~= without(blobs(l@).take(0), value@));
    }
    while i < l.len()
        invariant
            0 <= i <= l.len(),
            blobs(rest@) == without(blobs(l@).take(i as int), value@),
        decreases l.len() - i,
    {
        proof {
            reveal(Seq::filter);
            assert(blobs(l@).take(i + 1).drop_last() =~= blobs(l@).take(i as int));
        }
        if !bytes_eq(&l[i], value) {
            let ghost before = rest@;
            let b = copy_bytes(&l[i]);
            rest.push(b);
            assert(blobs(rest@) =~= blobs(before).push(b@));
        }
        i += 1;
    }
    assert(blobs(l@).take(l.len() as int) =~= blobs(l@));
    rest
}

/// Pushes behind `all` a copy of each blob of `more` that it does not hold
/// yet, so that `all` comes to hold the union of the two and still no blob
/// twice.
pub(crate) fn add_missing(all: &mut Vec<Vec<u8>>, more: &Vec<Vec<u8>>)
    requires
        blobs(old(all)@).no_duplicates(),
    ensures
        blobs(final(all)@).no_duplicates(),
        blobs(final(all)@).to_set() == blobs(old(all)@).to_set().union(blobs(more@).to_set()),
{
    let mut j: usize = 0;
    assert(blobs(all@).to_set() =~= blobs(old(all)@).to_set().union(blobs(more@).take(0).to_set()));
    while j < more.len()
        invariant
            0 <= j <= more.len(),
            blobs(all@).no_duplicates(),
            blobs(all@).to_set() == blobs(old(all)@).to_set().union(blobs(more@).take(j as int).to_set()),
        decreases more.len() - j,
    {
        let ghost before = blobs(all@);
        proof {
            lemma_take_next(blobs(more@), j as int);
        }
        if !holds_blob(all, &more[j]) {
            all.push(copy_bytes(&more[j]));
            proof {
                assert(blobs(all@) =~= before.push(more[j as int]@));
                lemma_push(before, more[j as int]@);
            }
        }
        assert(blobs(all@).to_set() =~= blobs(old(all)@).to_set().union(
            blobs(more@).take(j + 1).to_set(),
        ));
        j += 1;
    }
    assert(blobs(more@).take(more.len() as int) =~= blobs(more@));
}

} // verus!
