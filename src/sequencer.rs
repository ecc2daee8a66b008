//! Page order: which directory entries become pages, and in what order.
use vstd::prelude::*;
use crate::sort_key::{
    bytes_less, bytes_lt, is_image_file_name, is_image_name, lemma_bytes_lt_irreflexive,
    lemma_bytes_lt_total, lemma_bytes_lt_transitive, sort_key, sort_key_of, supported_extensions,
};

verus! {

/// One direct entry of the input directory.
pub struct ScanEntry {
    /// The entry's file name, as UTF-8 bytes.
    pub name: Vec<u8>,
    /// Whether the entry is a regular file.
    pub is_file: bool,
    /// The file's contents; only read for the entries that are taken in.
    pub data: Vec<u8>,
}

/// Whether entry `i` is an image file that is taken in.
pub open spec fn selected(entries: Seq<ScanEntry>, i: int) -> bool {
    entries[i].is_file && is_image_name(entries[i].name@)
}

/// The sort key of entry `i`.
#[verifier::opaque]
pub open spec fn key_at(entries: Seq<ScanEntry>, i: int) -> Seq<u8> {
    sort_key(entries[i].name@)
}

/// Every index of `order` is below `n` and names a selected entry.
#[verifier::opaque]
pub open spec fn order_selected(entries: Seq<ScanEntry>, order: Seq<usize>, n: int) -> bool {
    forall|k: int|
        #![trigger order[k]]
        0 <= k < order.len() ==> order[k] < n && selected(entries, order[k] as int)
}

/// No selected entry below `n` after an index of `order` has its key.
#[verifier::opaque]
pub open spec fn order_last(entries: Seq<ScanEntry>, order: Seq<usize>, n: int) -> bool {
    forall|k: int, j: int|
        #![trigger order[k], selected(entries, j)]
        0 <= k < order.len() && order[k] < j < n && selected(entries, j) ==> key_at(entries, j)
            != key_at(entries, order[k] as int)
}

/// The keys of the indices of `order` ascend strictly.
#[verifier::opaque]
pub open spec fn order_sorted(entries: Seq<ScanEntry>, order: Seq<usize>) -> bool {
    forall|k: int, l: int|
        0 <= k < l < order.len() ==> bytes_lt(
            key_at(entries, #[trigger] order[k] as int),
            key_at(entries, #[trigger] order[l] as int),
        )
}

/// The key of every selected entry below `n` is the key of an index of `order`.
#[verifier::opaque]
pub open spec fn order_covers(entries: Seq<ScanEntry>, order: Seq<usize>, n: int) -> bool {
    forall|j: int|
        0 <= j < n && #[trigger] selected(entries, j) ==> exists|k: int|
            0 <= k < order.len() && key_at(entries, #[trigger] order[k] as int) == key_at(
                entries,
                j,
            )
}

/// `order` is the page order of the first `n` entries: one index per distinct
/// sort key among the selected ones, by ascending key; of entries that share
/// a key the last one stays.
pub open spec fn is_page_order_upto(entries: Seq<ScanEntry>, order: Seq<usize>, n: int) -> bool {
    &&& order_selected(entries, order, n)
    &&& order_last(entries, order, n)
    &&& order_sorted(entries, order)
    &&& order_covers(entries, order, n)
}

/// `order` is the page order of all of `entries`.
pub open spec fn is_page_order(entries: Seq<ScanEntry>, order: Seq<usize>) -> bool {
    is_page_order_upto(entries, order, entries.len() as int)
}

/// The first position in the ascending `keys` whose key is not less than `key`.
fn find_slot(keys: &Vec<Vec<u8>>, key: &Vec<u8>) -> (p: usize)
    ensures
        p <= keys@.len(),
        forall|q: int| 0 <= q < p ==> bytes_lt(#[trigger] keys@[q]@, key@),
        p < keys@.len() ==> !bytes_lt(keys@[p as int]@, key@),
{
    let mut p: usize = 0;
    while p < keys.len()
        invariant
            p <= keys@.len(),
            forall|q: int| 0 <= q < p ==> bytes_lt(#[trigger] keys@[q]@, key@),
        decreases keys@.len() - p,
    {
        if !bytes_less(keys[p].as_slice(), key.as_slice()) {
            return p;
        }
        p = p + 1;
    }
    p
}

proof fn lemma_step_skip(entries: Seq<ScanEntry>, order: Seq<usize>, i: int)
    requires
        0 <= i < entries.len(),
        is_page_order_upto(entries, order, i),
        !selected(entries, i),
    ensures
        is_page_order_upto(entries, order, i + 1),
{
    reveal(order_selected);
    reveal(order_last);
    reveal(order_covers);
    assert forall|k: int, j: int|
        #![trigger order[k], selected(entries, j)]
        0 <= k < order.len() && order[k] < j < i + 1 && selected(entries, j)
        implies key_at(entries, j) != key_at(entries, order[k] as int) by {
        assert(j < i);
    }
}

proof fn lemma_step_replace(entries: Seq<ScanEntry>, order: Seq<usize>, i: int, p: int)
    requires
        0 <= i < entries.len(),
        i <= usize::MAX,
        is_page_order_upto(entries, order, i),
        selected(entries, i),
        0 <= p < order.len(),
        key_at(entries, order[p] as int) == key_at(entries, i),
    ensures
        is_page_order_upto(entries, order.update(p, i as usize), i + 1),
{
    reveal(order_selected);
    reveal(order_last);
    reveal(order_sorted);
    reveal(order_covers);
    let nw = order.update(p, i as usize);
    assert forall|k: int| #![trigger nw[k]] 0 <= k < nw.len() implies nw[k] < i + 1 && selected(entries, nw[k] as int) by {
        if k != p {
            assert(nw[k] == order[k]);
        }
    }
    assert forall|k: int, j: int|
        #![trigger nw[k], selected(entries, j)]
        0 <= k < nw.len() && nw[k] < j < i + 1 && selected(entries, j)
        implies key_at(entries, j) != key_at(entries, nw[k] as int) by {
        if k != p {
            assert(nw[k] == order[k]);
            if j == i {
                lemma_bytes_lt_irreflexive(key_at(entries, i));
                if k < p {
                    assert(bytes_lt(key_at(entries, order[k] as int), key_at(entries, order[p] as int)));
                } else {
                    assert(bytes_lt(key_at(entries, order[p] as int), key_at(entries, order[k] as int)));
                }
            }
        }
    }
    assert forall|k: int, l: int|
        0 <= k < l < nw.len() implies bytes_lt(
            key_at(entries, #[trigger] nw[k] as int),
            key_at(entries, #[trigger] nw[l] as int),
        ) by {
        assert(bytes_lt(key_at(entries, order[k] as int), key_at(entries, order[l] as int)));
    }
    assert forall|j: int|
        0 <= j < i + 1 && #[trigger] selected(entries, j) implies exists|k: int|
            0 <= k < nw.len() && key_at(entries, #[trigger] nw[k] as int) == key_at(entries, j) by {
        if j == i {
            assert(key_at(entries, nw[p] as int) == key_at(entries, j));
        } else {
            let k = choose|k: int|
                0 <= k < order.len() && key_at(entries, #[trigger] order[k] as int) == key_at(entries, j);
            assert(key_at(entries, nw[k] as int) == key_at(entries, j));
        }
    }
}

/// The precondition shared by the lemmas of an insertion at `p`.
pub open spec fn insert_ready(entries: Seq<ScanEntry>, order: Seq<usize>, i: int, p: int) -> bool {
    &&& 0 <= i < entries.len()
    &&& i <= usize::MAX
    &&& is_page_order_upto(entries, order, i)
    &&& selected(entries, i)
    &&& 0 <= p <= order.len()
    &&& forall|q: int| 0 <= q < p ==> bytes_lt(key_at(entries, #[trigger] order[q] as int), key_at(entries, i))
    &&& p < order.len() ==> bytes_lt(key_at(entries, i), key_at(entries, order[p] as int))
}

proof fn lemma_insert_new_key(entries: Seq<ScanEntry>, order: Seq<usize>, i: int, p: int)
    requires
        insert_ready(entries, order, i, p),
    ensures
        forall|q: int| 0 <= q < order.len() ==> key_at(entries, #[trigger] order[q] as int) != key_at(entries, i),
{
    reveal(order_sorted);
    let kk = key_at(entries, i);
    lemma_bytes_lt_irreflexive(kk);
    assert forall|q: int| 0 <= q < order.len() implies key_at(entries, #[trigger] order[q] as int) != kk by {
        if q < p {
            lemma_bytes_lt_total(key_at(entries, order[q] as int), kk);
        } else {
            if q > p {
                assert(bytes_lt(key_at(entries, order[p] as int), key_at(entries, order[q] as int)));
                lemma_bytes_lt_transitive(kk, key_at(entries, order[p] as int), key_at(entries, order[q] as int));
            }
            lemma_bytes_lt_total(key_at(entries, order[q] as int), kk);
        }
    }
}

proof fn lemma_insert_selected_last(entries: Seq<ScanEntry>, order: Seq<usize>, i: int, p: int)
    requires
        insert_ready(entries, order, i, p),
    ensures
        order_selected(entries, order.insert(p, i as usize), i + 1),
        order_last(entries, order.insert(p, i as usize), i + 1),
{
    reveal(order_selected);
    reveal(order_last);
    lemma_insert_new_key(entries, order, i, p);
    let kk = key_at(entries, i);
    let nw = order.insert(p, i as usize);
    assert forall|k: int| #![trigger nw[k]] 0 <= k < nw.len() implies nw[k] < i + 1 && selected(entries, nw[k] as int) by {
        if k > p {
            assert(nw[k] == order[k - 1]);
        } else if k < p {
            assert(nw[k] == order[k]);
        }
    }
    assert forall|k: int, j: int|
        #![trigger nw[k], selected(entries, j)]
        0 <= k < nw.len() && nw[k] < j < i + 1 && selected(entries, j)
        implies key_at(entries, j) != key_at(entries, nw[k] as int) by {
        if k < p {
            assert(nw[k] == order[k]);
            if j == i {
                assert(key_at(entries, order[k] as int) != kk);
            }
        } else if k > p {
            assert(nw[k] == order[k - 1]);
            if j == i {
                assert(key_at(entries, order[k - 1] as int) != kk);
            }
        }
    }
}

proof fn lemma_insert_sorted(entries: Seq<ScanEntry>, order: Seq<usize>, i: int, p: int)
    requires
        insert_ready(entries, order, i, p),
    ensures
        order_sorted(entries, order.insert(p, i as usize)),
{
    reveal(order_sorted);
    let kk = key_at(entries, i);
    let nw = order.insert(p, i as usize);
    assert forall|k: int, l: int|
        0 <= k < l < nw.len() implies bytes_lt(
            key_at(entries, #[trigger] nw[k] as int),
            key_at(entries, #[trigger] nw[l] as int),
        ) by {
        if k < p && l == p {
            assert(nw[k] == order[k]);
        } else if k < p && l > p {
            assert(nw[k] == order[k]);
            assert(nw[l] == order[l - 1]);
            assert(bytes_lt(key_at(entries, order[k] as int), kk));
            if l - 1 == p {
                lemma_bytes_lt_transitive(key_at(entries, order[k] as int), kk, key_at(entries, order[l - 1] as int));
            } else {
                assert(bytes_lt(key_at(entries, order[p] as int), key_at(entries, order[l - 1] as int)));
                lemma_bytes_lt_transitive(kk, key_at(entries, order[p] as int), key_at(entries, order[l - 1] as int));
                lemma_bytes_lt_transitive(key_at(entries, order[k] as int), kk, key_at(entries, order[l - 1] as int));
            }
        } else if k == p {
            assert(nw[l] == order[l - 1]);
            if l - 1 > p {
                assert(bytes_lt(key_at(entries, order[p] as int), key_at(entries, order[l - 1] as int)));
                lemma_bytes_lt_transitive(kk, key_at(entries, order[p] as int), key_at(entries, order[l - 1] as int));
            }
        } else if k > p {
            assert(nw[l] == order[l - 1]);
            assert(nw[k] == order[k - 1]);
            assert(bytes_lt(key_at(entries, order[k - 1] as int), key_at(entries, order[l - 1] as int)));
        } else {
            assert(nw[l] == order[l]);
            assert(nw[k] == order[k]);
            assert(bytes_lt(key_at(entries, order[k] as int), key_at(entries, order[l] as int)));
        }
    }
}

proof fn lemma_insert_covers(entries: Seq<ScanEntry>, order: Seq<usize>, i: int, p: int)
    requires
        insert_ready(entries, order, i, p),
    ensures
        order_covers(entries, order.insert(p, i as usize), i + 1),
{
    reveal(order_covers);
    let nw = order.insert(p, i as usize);
    assert forall|j: int|
        0 <= j < i + 1 && #[trigger] selected(entries, j) implies exists|k: int|
            0 <= k < nw.len() && key_at(entries, #[trigger] nw[k] as int) == key_at(entries, j) by {
        if j == i {
            assert(key_at(entries, nw[p] as int) == key_at(entries, j));
        } else {
            let k = choose|k: int|
                0 <= k < order.len() && key_at(entries, #[trigger] order[k] as int) == key_at(entries, j);
            if k < p {
                assert(nw[k] == order[k]);
                assert(key_at(entries, nw[k] as int) == key_at(entries, j));
            } else {
                assert(nw[k + 1] == order[k]);
                assert(key_at(entries, nw[k + 1] as int) == key_at(entries, j));
            }
        }
    }
}

/// The page order is empty exactly when no entry is selected.
pub proof fn lemma_page_order_empty(entries: Seq<ScanEntry>, order: Seq<usize>)
    requires
        is_page_order(entries, order),
    ensures
        order.len() == 0 <==> forall|i: int| 0 <= i < entries.len() ==> !selected(entries, i),
{
    reveal(order_selected);
    reveal(order_covers);
    if order.len() > 0 {
        assert(selected(entries, order[0] as int));
    }
}

/// The page order of `entries` (see `is_page_order`), given the list of
/// supported extensions.
pub fn order_entries(entries: &Vec<ScanEntry>, exts: &Vec<Vec<u8>>) -> (r: Vec<usize>)
    requires
        exts@.map_values(|v: Vec<u8>| v@) == supported_extensions(),
    ensures
        is_page_order(entries@, r@),
{
    let mut order: Vec<usize> = Vec::new();
    let mut keys: Vec<Vec<u8>> = Vec::new();
    let mut i: usize = 0;
    proof {
        reveal(order_selected);
        reveal(order_last);
        reveal(order_sorted);
        reveal(order_covers);
    }
    while i < entries.len()
        invariant
            i <= entries@.len(),
            exts@.map_values(|v: Vec<u8>| v@) == supported_extensions(),
            order@.len() == keys@.len(),
            forall|k: int| 0 <= k < order@.len() ==> #[trigger] keys@[k]@ == key_at(entries@, order@[k] as int),
            is_page_order_upto(entries@, order@, i as int),
        decreases entries@.len() - i,
    {
        let entry = &entries[i];
        if entry.is_file && is_image_file_name(entry.name.as_slice(), exts) {
            let key = sort_key_of(entry.name.as_slice());
            assert(selected(entries@, i as int));
            assert(key@ == key_at(entries@, i as int)) by {
                reveal(key_at);
            }
            let p = find_slot(&keys, &key);
            let ghost old_order = order@;
            let ghost old_keys = keys@;
            proof {
                assert forall|q: int| 0 <= q < p implies bytes_lt(key_at(entries@, #[trigger] old_order[q] as int), key@) by {
                    assert(bytes_lt(old_keys[q]@, key@));
                }
            }
            if p < keys.len() && !bytes_less(key.as_slice(), keys[p].as_slice()) {
                proof {
                    lemma_bytes_lt_total(key@, keys@[p as int]@);
                    lemma_step_replace(entries@, old_order, i as int, p as int);
                }
                order.set(p, i);
                proof {
                    assert forall|k: int| 0 <= k < order@.len() implies #[trigger] keys@[k]@ == key_at(entries@, order@[k] as int) by {
                        if k != p {
                            assert(old_keys[k]@ == key_at(entries@, old_order[k] as int));
                        }
                    }
                }
            } else {
                proof {
                    if p < keys@.len() {
                        lemma_bytes_lt_total(key@, keys@[p as int]@);
                    }
                    assert(insert_ready(entries@, old_order, i as int, p as int));
                    lemma_insert_selected_last(entries@, old_order, i as int, p as int);
                    lemma_insert_sorted(entries@, old_order, i as int, p as int);
                    lemma_insert_covers(entries@, old_order, i as int, p as int);
                }
                order.insert(p, i);
                keys.insert(p, key);
                proof {
                    assert forall|k: int| 0 <= k < order@.len() implies #[trigger] keys@[k]@ == key_at(entries@, order@[k] as int) by {
                        if k > p {
                            assert(keys@[k] == old_keys[k - 1]);
                            assert(old_keys[k - 1]@ == key_at(entries@, old_order[k - 1] as int));
                        } else if k < p {
                            assert(old_keys[k]@ == key_at(entries@, old_order[k] as int));
                        }
                    }
                }
            }
        } else {
            proof {
                lemma_step_skip(entries@, order@, i as int);
            }
        }
        i = i + 1;
    }
    order
}

proof fn lemma_same_key_same_entry(entries: Seq<ScanEntry>, a: Seq<usize>, b: Seq<usize>, k: int, l: int)
    requires
        is_page_order(entries, a),
        is_page_order(entries, b),
        0 <= k < a.len(),
        0 <= l < b.len(),
        key_at(entries, a[k] as int) == key_at(entries, b[l] as int),
    ensures
        a[k] == b[l],
{
    reveal(order_selected);
    reveal(order_last);
    assert(a[k] < entries.len() && selected(entries, a[k] as int));
    assert(b[l] < entries.len() && selected(entries, b[l] as int));
}

/// A selected entry's key is the key of an entry of the order that is not
/// before position `m`, when the first `m` positions of `a` and `b` agree.
proof fn lemma_match_not_before(entries: Seq<ScanEntry>, a: Seq<usize>, b: Seq<usize>, m: int) -> (l: int)
    requires
        is_page_order(entries, a),
        is_page_order(entries, b),
        0 <= m < a.len(),
        forall|j: int| 0 <= j < m ==> a[j] == b[j],
    ensures
        m <= l < b.len(),
        key_at(entries, b[l] as int) == key_at(entries, a[m] as int),
{
    reveal(order_selected);
    reveal(order_covers);
    reveal(order_sorted);
    assert(selected(entries, a[m] as int));
    let l = choose|l: int| 0 <= l < b.len() && key_at(entries, #[trigger] b[l] as int) == key_at(entries, a[m] as int);
    if l < m {
        assert(a[l] == b[l]);
        assert(bytes_lt(key_at(entries, a[l] as int), key_at(entries, a[m] as int)));
        lemma_bytes_lt_irreflexive(key_at(entries, a[m] as int));
    }
    l
}

proof fn lemma_orders_agree_upto(entries: Seq<ScanEntry>, a: Seq<usize>, b: Seq<usize>, m: int)
    requires
        is_page_order(entries, a),
        is_page_order(entries, b),
        0 <= m <= a.len(),
        m <= b.len(),
    ensures
        forall|j: int| 0 <= j < m ==> a[j] == b[j],
    decreases m,
{
    if m > 0 {
        let k = m - 1;
        lemma_orders_agree_upto(entries, a, b, k);
        let l = lemma_match_not_before(entries, a, b, k);
        let l2 = lemma_match_not_before(entries, b, a, k);
        reveal(order_sorted);
        let ka = key_at(entries, a[k] as int);
        let kb = key_at(entries, b[k] as int);
        if l > k {
            assert(bytes_lt(kb, key_at(entries, b[l] as int)));
            if l2 == k {
                lemma_bytes_lt_irreflexive(kb);
            } else {
                assert(bytes_lt(ka, key_at(entries, a[l2] as int)));
                lemma_bytes_lt_total(ka, kb);
            }
        }
        lemma_same_key_same_entry(entries, a, b, k, k);
    }
}

/// The page order is determined by the entries alone: two page orders of the
/// same entries are equal, so converting an unchanged directory again gives
/// the same pages in the same order.
pub proof fn lemma_page_order_unique(entries: Seq<ScanEntry>, a: Seq<usize>, b: Seq<usize>)
    requires
        is_page_order(entries, a),
        is_page_order(entries, b),
    ensures
        a == b,
{
    if a.len() > b.len() {
        lemma_orders_agree_upto(entries, a, b, b.len() as int);
        lemma_match_not_before(entries, a, b, b.len() as int);
    } else if b.len() > a.len() {
        lemma_orders_agree_upto(entries, b, a, a.len() as int);
        lemma_match_not_before(entries, b, a, a.len() as int);
    } else {
        lemma_orders_agree_upto(entries, a, b, a.len() as int);
        assert(a =~= b);
    }
}

/// The keys of the entries of `order`, in order.
#[verifier::opaque]
pub open spec fn order_keys(entries: Seq<ScanEntry>, order: Seq<usize>) -> Seq<Seq<u8>> {
    Seq::new(order.len(), |k: int| key_at(entries, order[k] as int))
}

/// The entries of `order`, in order: the files that become pages.
pub open spec fn page_entries(entries: Seq<ScanEntry>, order: Seq<usize>) -> Seq<ScanEntry> {
    Seq::new(order.len(), |k: int| entries[order[k] as int])
}

/// Whether the selected entries of `entries` have pairwise distinct keys.
pub open spec fn keys_distinct(entries: Seq<ScanEntry>) -> bool {
    forall|i: int, j: int|
        0 <= i < entries.len() && 0 <= j < entries.len() && i != j && selected(entries, i)
            && selected(entries, j) ==> #[trigger] key_at(entries, i) != #[trigger] key_at(entries, j)
}

pub open spec fn strictly_ascending(x: Seq<Seq<u8>>) -> bool {
    forall|k: int, l: int| 0 <= k < l < x.len() ==> bytes_lt(#[trigger] x[k], #[trigger] x[l])
}

/// Each member of `x` is a member of `y`.
pub open spec fn members_in(x: Seq<Seq<u8>>, y: Seq<Seq<u8>>) -> bool {
    forall|i: int| 0 <= i < x.len() ==> y.contains(#[trigger] x[i])
}

/// Each entry of `a` is an entry of `b`.
pub open spec fn listed_in(a: Seq<ScanEntry>, b: Seq<ScanEntry>) -> bool {
    forall|i: int|
        #![trigger a[i]]
        0 <= i < a.len() ==> exists|j: int| #![trigger b[j]] 0 <= j < b.len() && b[j] == a[i]
}

#[verifier::rlimit(40)]
proof fn lemma_ascending_agree_upto(x: Seq<Seq<u8>>, y: Seq<Seq<u8>>, m: int)
    requires
        strictly_ascending(x),
        strictly_ascending(y),
        members_in(x, y),
        members_in(y, x),
        0 <= m <= x.len(),
        m <= y.len(),
    ensures
        forall|j: int| 0 <= j < m ==> x[j] == y[j],
    decreases m,
{
    if m > 0 {
        let k = m - 1;
        lemma_ascending_agree_upto(x, y, k);
        assert(y.contains(x[k]));
        assert(x.contains(y[k]));
        let l = choose|j: int| 0 <= j < y.len() && y[j] == x[k];
        let l2 = choose|j: int| 0 <= j < x.len() && x[j] == y[k];
        if l < k {
            assert(x[l] == y[l]);
            lemma_bytes_lt_irreflexive(x[k]);
            assert(bytes_lt(x[l], x[k]));
        } else if l2 < k {
            assert(x[l2] == y[l2]);
            lemma_bytes_lt_irreflexive(y[k]);
            assert(bytes_lt(y[l2], y[k]));
        } else if l > k {
            assert(bytes_lt(y[k], y[l]));
            if l2 == k {
                lemma_bytes_lt_irreflexive(y[k]);
            } else {
                assert(bytes_lt(x[k], x[l2]));
                lemma_bytes_lt_total(x[k], y[k]);
            }
        }
    }
}

/// Two strictly ascending sequences with the same members are equal.
proof fn lemma_ascending_same_members(x: Seq<Seq<u8>>, y: Seq<Seq<u8>>)
    requires
        strictly_ascending(x),
        strictly_ascending(y),
        members_in(x, y),
        members_in(y, x),
    ensures
        x == y,
{
    if x.len() > y.len() {
        lemma_ascending_agree_upto(x, y, y.len() as int);
        let k = y.len() as int;
        assert(y.contains(x[k]));
        let l = choose|j: int| 0 <= j < y.len() && y[j] == x[k];
        assert(x[l] == y[l]);
        lemma_bytes_lt_irreflexive(x[k]);
        assert(bytes_lt(x[l], x[k]));
    } else if y.len() > x.len() {
        lemma_ascending_agree_upto(y, x, x.len() as int);
        let k = x.len() as int;
        assert(x.contains(y[k]));
        let l = choose|j: int| 0 <= j < x.len() && x[j] == y[k];
        assert(y[l] == x[l]);
        lemma_bytes_lt_irreflexive(y[k]);
        assert(bytes_lt(y[l], y[k]));
    } else {
        lemma_ascending_agree_upto(x, y, x.len() as int);
        assert(x =~= y);
    }
}

proof fn lemma_order_keys_in(a: Seq<ScanEntry>, b: Seq<ScanEntry>, oa: Seq<usize>, ob: Seq<usize>)
    requires
        is_page_order(a, oa),
        is_page_order(b, ob),
        listed_in(a, b),
    ensures
        strictly_ascending(order_keys(a, oa)),
        members_in(order_keys(a, oa), order_keys(b, ob)),
{
    reveal(order_selected);
    reveal(order_sorted);
    reveal(order_covers);
    let ka = order_keys(a, oa);
    let kb = order_keys(b, ob);
    reveal(order_keys);
    assert forall|k: int, l: int| 0 <= k < l < ka.len() implies bytes_lt(#[trigger] ka[k], #[trigger] ka[l]) by {
        assert(bytes_lt(key_at(a, oa[k] as int), key_at(a, oa[l] as int)));
    }
    assert forall|i: int| 0 <= i < ka.len() implies kb.contains(#[trigger] ka[i]) by {
        let e = oa[i] as int;
        assert(selected(a, e));
        assert(a[e] == a[e]);
        let j = choose|j: int| 0 <= j < b.len() && b[j] == a[e];
        assert(key_at(b, j) == key_at(a, e)) by {
            reveal(key_at);
        }
        assert(selected(b, j));
        let l = choose|l: int| 0 <= l < ob.len() && key_at(b, #[trigger] ob[l] as int) == key_at(b, j);
        assert(kb[l] == ka[i]);
    }
    assert(members_in(ka, kb));
}

/// The pages do not depend on the order in which a directory lists its
/// entries: two listings of the same entries, whose image files have
/// pairwise distinct sort keys, give the same files in the same page order.
pub proof fn lemma_page_order_listing_independent(
    a: Seq<ScanEntry>,
    b: Seq<ScanEntry>,
    oa: Seq<usize>,
    ob: Seq<usize>,
)
    requires
        is_page_order(a, oa),
        is_page_order(b, ob),
        listed_in(a, b),
        listed_in(b, a),
        keys_distinct(b),
    ensures
        page_entries(a, oa) == page_entries(b, ob),
{
    lemma_order_keys_in(a, b, oa, ob);
    lemma_order_keys_in(b, a, ob, oa);
    lemma_ascending_same_members(order_keys(a, oa), order_keys(b, ob));
    reveal(order_selected);
    reveal(order_keys);
    assert(oa.len() == order_keys(a, oa).len());
    let pa = page_entries(a, oa);
    let pb = page_entries(b, ob);
    assert forall|k: int| 0 <= k < pa.len() implies pa[k] == pb[k] by {
        let e = oa[k] as int;
        assert(selected(a, e));
        assert(a[e] == a[e]);
        let j = choose|j: int| 0 <= j < b.len() && b[j] == a[e];
        assert(key_at(b, j) == key_at(a, e)) by {
            reveal(key_at);
        }
        assert(order_keys(a, oa)[k] == order_keys(b, ob)[k]);
        assert(selected(b, ob[k] as int));
        if j != ob[k] as int {
            assert(key_at(b, j) != key_at(b, ob[k] as int));
        }
    }
    assert(pa =~= pb);
}

} // verus!
