//! Sorting by keys. A key is a row of byte strings; keys are compared string by string, and
//! strings byte by byte. Sorting is stable: items with one key keep their order.

use vstd::prelude::*;
use vstd::seq_lib::to_multiset_insert;

use crate::text::plain_digits;
use crate::text::{decimal, digit_char, digits_value, is_digit, lemma_decimal, lemma_place_value, place_value};

verus! {

/// Whether a byte string comes before another: at the first difference its byte is the
/// smaller one, or it ends there.
pub open spec fn bytes_before(a: Seq<u8>, b: Seq<u8>) -> bool
    decreases a.len(),
{
    if b.len() == 0 {
        false
    } else if a.len() == 0 {
        true
    } else if a[0] != b[0] {
        a[0] < b[0]
    } else {
        bytes_before(a.drop_first(), b.drop_first())
    }
}

/// Whether a key comes before another: at the first difference its string comes before the
/// other one, or it ends there.
pub open spec fn key_before(a: Seq<Seq<u8>>, b: Seq<Seq<u8>>) -> bool
    decreases a.len(),
{
    if b.len() == 0 {
        false
    } else if a.len() == 0 {
        true
    } else if a[0] != b[0] {
        bytes_before(a[0], b[0])
    } else {
        key_before(a.drop_first(), b.drop_first())
    }
}

/// A byte string does not come before itself.
pub proof fn lemma_bytes_irreflexive(a: Seq<u8>)
    ensures
        !bytes_before(a, a),
    decreases a.len(),
{
    if a.len() > 0 {
        lemma_bytes_irreflexive(a.drop_first());
    }
}

/// Of two different byte strings one comes before the other.
pub proof fn lemma_bytes_total(a: Seq<u8>, b: Seq<u8>)
    ensures
        bytes_before(a, b) || a == b || bytes_before(b, a),
    decreases a.len(),
{
    if a.len() > 0 && b.len() > 0 && a[0] == b[0] {
        lemma_bytes_total(a.drop_first(), b.drop_first());
        if a.drop_first() == b.drop_first() {
            assert(a.drop_first().len() == b.drop_first().len());
            assert forall|i: int| 0 < i < a.len() implies a[i] == b[i] by {
                assert(a.drop_first()[i - 1] == a[i] && b.drop_first()[i - 1] == b[i]);
            }
            assert(a =~= b);
        }
    } else if a.len() == 0 && b.len() == 0 {
        assert(a =~= b);
    }
}

/// The order of byte strings is transitive.
pub proof fn lemma_bytes_transitive(a: Seq<u8>, b: Seq<u8>, c: Seq<u8>)
    requires
        bytes_before(a, b),
        bytes_before(b, c),
    ensures
        bytes_before(a, c),
    decreases a.len(),
{
    if a.len() > 0 && a[0] == b[0] && b[0] == c[0] {
        lemma_bytes_transitive(a.drop_first(), b.drop_first(), c.drop_first());
    }
}

/// A key does not come before itself.
pub proof fn lemma_key_irreflexive(a: Seq<Seq<u8>>)
    ensures
        !key_before(a, a),
    decreases a.len(),
{
    if a.len() > 0 {
        lemma_key_irreflexive(a.drop_first());
    }
}

/// Of two different keys one comes before the other.
pub proof fn lemma_key_total(a: Seq<Seq<u8>>, b: Seq<Seq<u8>>)
    ensures
        key_before(a, b) || a == b || key_before(b, a),
    decreases a.len(),
{
    if a.len() > 0 && b.len() > 0 && a[0] == b[0] {
        lemma_key_total(a.drop_first(), b.drop_first());
        if a.drop_first() == b.drop_first() {
            assert(a.drop_first().len() == b.drop_first().len());
            assert forall|i: int| 0 < i < a.len() implies a[i] == b[i] by {
                assert(a.drop_first()[i - 1] == a[i] && b.drop_first()[i - 1] == b[i]);
            }
            assert(a =~= b);
        }
    } else if a.len() > 0 && b.len() > 0 {
        lemma_bytes_total(a[0], b[0]);
    } else if a.len() == 0 && b.len() == 0 {
        assert(a =~= b);
    }
}

/// The order of keys is transitive.
pub proof fn lemma_key_transitive(a: Seq<Seq<u8>>, b: Seq<Seq<u8>>, c: Seq<Seq<u8>>)
    requires
        key_before(a, b),
        key_before(b, c),
    ensures
        key_before(a, c),
    decreases a.len(),
{
    if a.len() > 0 {
        if a[0] == b[0] && b[0] == c[0] {
            lemma_key_transitive(a.drop_first(), b.drop_first(), c.drop_first());
        } else if a[0] != b[0] && b[0] != c[0] {
            lemma_bytes_transitive(a[0], b[0], c[0]);
            if a[0] == c[0] {
                lemma_bytes_irreflexive(a[0]);
            }
        }
    }
}

/// Whether the item at place `i` belongs before the item at place `j`: its key comes first,
/// or the keys are equal and it already stood first.
pub open spec fn belongs_before(keys: Seq<Seq<Seq<u8>>>, i: int, j: int) -> bool {
    key_before(keys[i], keys[j]) || (keys[i] == keys[j] && i < j)
}

/// The places `lo..` in the order in which a stable sort puts them.
pub open spec fn stable_from(keys: Seq<Seq<Seq<u8>>>, lo: int, places: Seq<int>) -> bool {
    &&& places.len() == keys.len() - lo
    &&& forall|i: int| 0 <= i < places.len() ==> lo <= #[trigger] places[i] < keys.len()
    &&& forall|k: int| lo <= k < keys.len() ==> #[trigger] places.contains(k)
    &&& forall|i: int, j: int|
        0 <= i < j < places.len() ==> belongs_before(
            keys,
            #[trigger] places[i],
            #[trigger] places[j],
        )
}

/// All places in the order in which a stable sort by the given keys puts them.
pub open spec fn stable_order(keys: Seq<Seq<Seq<u8>>>, places: Seq<int>) -> bool {
    stable_from(keys, 0, places)
}

/// The order in which a stable sort by the given keys puts the places.
pub open spec fn sorting(keys: Seq<Seq<Seq<u8>>>) -> Seq<int> {
    choose|places: Seq<int>| stable_order(keys, places)
}

/// Items taken in the order of the given places.
pub open spec fn arranged<T>(items: Seq<T>, places: Seq<int>) -> Seq<T> {
    places.map_values(|i: int| items[i])
}

/// Items sorted by their keys, items with one key in the order in which they stood.
pub open spec fn sorted_by<T>(items: Seq<T>, keys: Seq<Seq<Seq<u8>>>) -> Seq<T> {
    arranged(items, sorting(keys))
}

/// Putting one more place in front of those whose keys do not come before its own.
proof fn lemma_insert(keys: Seq<Seq<Seq<u8>>>, lo: int, places: Seq<int>, at: int)
    requires
        0 <= lo < keys.len(),
        stable_from(keys, lo + 1, places),
        0 <= at <= places.len(),
        forall|j: int| 0 <= j < at ==> key_before(keys[#[trigger] places[j]], keys[lo]),
        forall|j: int| at <= j < places.len() ==> !key_before(keys[#[trigger] places[j]], keys[lo]),
    ensures
        stable_from(keys, lo, places.insert(at, lo)),
{
    let more = places.insert(at, lo);
    assert forall|i: int| 0 <= i < more.len() implies lo <= #[trigger] more[i] < keys.len() by {
        if i < at {
            assert(more[i] == places[i]);
        } else if i > at {
            assert(more[i] == places[i - 1]);
        }
    }
    assert forall|k: int| lo <= k < keys.len() implies #[trigger] more.contains(k) by {
        if k == lo {
            assert(more[at] == k);
        } else {
            assert(places.contains(k));
            let j = places.index_of(k);
            if j < at {
                assert(more[j] == k);
            } else {
                assert(more[j + 1] == k);
            }
        }
    }
    assert forall|i: int, j: int| 0 <= i < j < more.len() implies belongs_before(
        keys,
        #[trigger] more[i],
        #[trigger] more[j],
    ) by {
        if j < at {
            assert(more[i] == places[i] && more[j] == places[j]);
        } else if j == at {
            assert(more[i] == places[i]);
        } else if i < at {
            assert(more[i] == places[i] && more[j] == places[j - 1]);
        } else if i == at {
            let k = places[j - 1];
            assert(more[j] == k);
            lemma_key_total(keys[lo], keys[k]);
        } else {
            assert(more[i] == places[i - 1] && more[j] == places[j - 1]);
        }
    }
}

/// Behind a place whose key does not come before a given one, no key comes before it.
proof fn lemma_monotone(keys: Seq<Seq<Seq<u8>>>, lo: int, places: Seq<int>, i: int, j: int, key: Seq<Seq<u8>>)
    requires
        stable_from(keys, lo, places),
        0 <= i <= j < places.len(),
        key_before(keys[places[j]], key),
    ensures
        key_before(keys[places[i]], key),
{
    if i < j {
        assert(belongs_before(keys, places[i], places[j]));
        if key_before(keys[places[i]], keys[places[j]]) {
            lemma_key_transitive(keys[places[i]], keys[places[j]], key);
        }
    }
}

/// There is a place among sorted ones where a key belongs.
proof fn lemma_slot(keys: Seq<Seq<Seq<u8>>>, lo: int, places: Seq<int>, key: Seq<Seq<u8>>, n: nat) -> (at: int)
    requires
        stable_from(keys, lo, places),
        n <= places.len(),
        forall|j: int| n <= j < places.len() ==> !key_before(keys[#[trigger] places[j]], key),
    ensures
        0 <= at <= places.len(),
        forall|j: int| 0 <= j < at ==> key_before(keys[#[trigger] places[j]], key),
        forall|j: int| at <= j < places.len() ==> !key_before(keys[#[trigger] places[j]], key),
    decreases n,
{
    if n == 0 {
        0
    } else if key_before(keys[places[n - 1]], key) {
        assert forall|j: int| 0 <= j < n implies key_before(keys[#[trigger] places[j]], key) by {
            lemma_monotone(keys, lo, places, j, n - 1, key);
        }
        n as int
    } else {
        lemma_slot(keys, lo, places, key, (n - 1) as nat)
    }
}

/// The places from `lo` on can be sorted, and no item is lost or doubled by it.
proof fn lemma_sortable<T>(items: Seq<T>, keys: Seq<Seq<Seq<u8>>>, lo: int) -> (places: Seq<int>)
    requires
        0 <= lo <= keys.len(),
        items.len() == keys.len(),
    ensures
        stable_from(keys, lo, places),
        arranged(items, places).to_multiset() == items.skip(lo).to_multiset(),
    decreases keys.len() - lo,
{
    if lo == keys.len() {
        assert(arranged(items, seq![]) =~= items.skip(lo));
        seq![]
    } else {
        let rest = lemma_sortable(items, keys, lo + 1);
        let at = lemma_slot(keys, lo + 1, rest, keys[lo], rest.len());
        lemma_insert(keys, lo, rest, at);
        to_multiset_insert(arranged(items, rest), at, items[lo]);
        to_multiset_insert(items.skip(lo + 1), 0, items[lo]);
        assert(arranged(items, rest.insert(at, lo)) =~= arranged(items, rest).insert(at, items[lo]));
        assert(items.skip(lo) =~= items.skip(lo + 1).insert(0, items[lo]));
        rest.insert(at, lo)
    }
}

/// No two places each belong before the other.
proof fn lemma_asymmetric(keys: Seq<Seq<Seq<u8>>>, i: int, j: int)
    requires
        belongs_before(keys, i, j),
    ensures
        !belongs_before(keys, j, i),
{
    if belongs_before(keys, j, i) {
        lemma_key_irreflexive(keys[i]);
        if key_before(keys[i], keys[j]) && key_before(keys[j], keys[i]) {
            lemma_key_transitive(keys[i], keys[j], keys[i]);
        }
    }
}

/// Two stable orders agree at every place.
proof fn lemma_agree(keys: Seq<Seq<Seq<u8>>>, p: Seq<int>, q: Seq<int>, n: nat)
    requires
        stable_order(keys, p),
        stable_order(keys, q),
        n <= keys.len(),
    ensures
        forall|i: int| 0 <= i < n ==> #[trigger] p[i] == q[i],
    decreases n,
{
    if n > 0 {
        lemma_agree(keys, p, q, (n - 1) as nat);
        let i = n - 1;
        assert(q.contains(p[i]) && p.contains(q[i]));
        let m = q.index_of(p[i]);
        let k = p.index_of(q[i]);
        if m < i {
            assert(p[m] == q[m]);
            assert(belongs_before(keys, p[m], p[i]));
            lemma_key_irreflexive(keys[p[i]]);
        }
        if k < i {
            assert(p[k] == q[k]);
            assert(belongs_before(keys, q[k], q[i]));
            lemma_key_irreflexive(keys[q[i]]);
        }
        if m > i && k > i {
            assert(belongs_before(keys, q[i], q[m]));
            assert(belongs_before(keys, p[i], p[k]));
            lemma_asymmetric(keys, q[i], p[i]);
        }
    }
}

/// Every list of keys has exactly one stable order.
pub proof fn law_stable_order_unique(keys: Seq<Seq<Seq<u8>>>, places: Seq<int>)
    ensures
        stable_order(keys, sorting(keys)),
        stable_order(keys, places) ==> places == sorting(keys),
{
    let some = lemma_sortable(keys, keys, 0);
    assert(stable_order(keys, some));
    if stable_order(keys, places) {
        lemma_agree(keys, places, sorting(keys), keys.len());
        assert(places =~= sorting(keys));
    }
}

/// Sorting loses and doubles nothing, and no key stands behind one that it comes before.
pub proof fn law_sorted<T>(items: Seq<T>, keys: Seq<Seq<Seq<u8>>>)
    requires
        items.len() == keys.len(),
    ensures
        sorted_by(items, keys).to_multiset() == items.to_multiset(),
        forall|i: int, j: int|
            0 <= i < j < keys.len() ==> !key_before(
                #[trigger] sorted_by(keys, keys)[j],
                #[trigger] sorted_by(keys, keys)[i],
            ),
{
    let places = lemma_sortable(items, keys, 0);
    law_stable_order_unique(keys, places);
    assert(items.skip(0) =~= items);
    let sorted_keys = sorted_by(keys, keys);
    assert forall|i: int, j: int| 0 <= i < j < keys.len() implies !key_before(
        #[trigger] sorted_keys[j],
        #[trigger] sorted_keys[i],
    ) by {
        let a = keys[places[i]];
        let b = keys[places[j]];
        assert(belongs_before(keys, places[i], places[j]));
        lemma_key_irreflexive(a);
        if key_before(a, b) && key_before(b, a) {
            lemma_key_transitive(a, b, a);
        }
    }
}

/// Sorting what is sorted changes nothing.
pub proof fn law_sorted_twice<T>(items: Seq<T>, keys: Seq<Seq<Seq<u8>>>)
    requires
        items.len() == keys.len(),
    ensures
        sorted_by(sorted_by(items, keys), sorted_by(keys, keys)) == sorted_by(items, keys),
{
    let places = sorting(keys);
    let again = sorted_by(keys, keys);
    let same = Seq::new(keys.len(), |i: int| i);
    law_stable_order_unique(keys, places);
    assert forall|k: int| 0 <= k < again.len() implies #[trigger] same.contains(k) by {
        assert(same[k] == k);
    }
    assert forall|i: int, j: int| 0 <= i < j < same.len() implies belongs_before(
        again,
        #[trigger] same[i],
        #[trigger] same[j],
    ) by {
        assert(belongs_before(keys, places[i], places[j]));
        assert(again[i] == keys[places[i]] && again[j] == keys[places[j]]);
    }
    law_stable_order_unique(again, same);
    assert(arranged(sorted_by(items, keys), same) =~= sorted_by(items, keys));
}

/// The contents of a key.
pub open spec fn key_view(key: Seq<Vec<u8>>) -> Seq<Seq<u8>> {
    key.map_values(|v: Vec<u8>| v@)
}

/// The contents of a list of keys.
pub open spec fn key_views(keys: Seq<Vec<Vec<u8>>>) -> Seq<Seq<Seq<u8>>> {
    keys.map_values(|k: Vec<Vec<u8>>| key_view(k@))
}

/// Whether two byte strings are equal.
pub fn bytes_equal(a: &[u8], b: &[u8]) -> (r: bool)
    ensures
        r == (a@ == b@),
{
    if a.len() != b.len() {
        return false;
    }
    let mut i: usize = 0;
    while i < a.len()
        invariant
            a@.len() == b@.len(),
            i <= a@.len(),
            forall|j: int| 0 <= j < i ==> a@[j] == b@[j],
        decreases a@.len() - i,
    {
        if a[i] != b[i] {
            return false;
        }
        i += 1;
    }
    assert(a@ =~= b@);
    true
}

/// Whether a byte string comes before another.
pub fn bytes_less(a: &[u8], b: &[u8]) -> (r: bool)
    ensures
        r == bytes_before(a@, b@),
{
    let mut i: usize = 0;
    assert(a@.skip(0) =~= a@ && b@.skip(0) =~= b@);
    while i < a.len() && i < b.len()
        invariant
            i <= a@.len(),
            i <= b@.len(),
            bytes_before(a@, b@) == bytes_before(a@.skip(i as int), b@.skip(i as int)),
        decreases a@.len() - i,
    {
        if a[i] != b[i] {
            return a[i] < b[i];
        }
        assert(a@.skip(i as int).drop_first() =~= a@.skip(i + 1));
        assert(b@.skip(i as int).drop_first() =~= b@.skip(i + 1));
        i += 1;
    }
    i < b.len()
}

/// Whether a key comes before another.
pub fn key_less(a: &Vec<Vec<u8>>, b: &Vec<Vec<u8>>) -> (r: bool)
    ensures
        r == key_before(key_view(a@), key_view(b@)),
{
    let mut i: usize = 0;
    let ghost va = key_view(a@);
    let ghost vb = key_view(b@);
    assert(va.skip(0) =~= va && vb.skip(0) =~= vb);
    while i < a.len() && i < b.len()
        invariant
            va == key_view(a@),
            vb == key_view(b@),
            i <= a@.len(),
            i <= b@.len(),
            key_before(va, vb) == key_before(va.skip(i as int), vb.skip(i as int)),
        decreases a@.len() - i,
    {
        assert(va.skip(i as int)[0] == a@[i as int]@ && vb.skip(i as int)[0] == b@[i as int]@);
        if !bytes_equal(a[i].as_slice(), b[i].as_slice()) {
            return bytes_less(a[i].as_slice(), b[i].as_slice());
        }
        assert(va.skip(i as int).drop_first() =~= va.skip(i + 1));
        assert(vb.skip(i as int).drop_first() =~= vb.skip(i + 1));
        i += 1;
    }
    i < b.len()
}

/// Sorts items by their keys; items with one key keep their order.
pub fn sort_by_keys<T>(items: Vec<T>, keys: Vec<Vec<Vec<u8>>>) -> (sorted: Vec<T>)
    requires
        items@.len() == keys@.len(),
    ensures
        sorted@ == sorted_by(items@, key_views(keys@)),
{
    let ghost all = items@;
    let ghost kv = key_views(keys@);
    let mut items = items;
    let mut keys = keys;
    let mut sorted: Vec<T> = Vec::new();
    let mut done: Vec<Vec<Vec<u8>>> = Vec::new();
    let ghost mut places: Seq<int> = seq![];
    let mut lo: usize = keys.len();
    assert(arranged(all, places) =~= sorted@);
    while lo > 0
        invariant
            kv.len() == all.len(),
            lo <= all.len(),
            items@ == all.take(lo as int),
            keys@.len() == lo,
            key_views(keys@) == kv.take(lo as int),
            stable_from(kv, lo as int, places),
            sorted@ == arranged(all, places),
            done@.len() == places.len(),
            key_views(done@) == arranged(kv, places),
        decreases lo,
    {
        let ghost done_before = done@;
        lo -= 1;
        assert(key_views(keys@)[lo as int] == key_view(keys@[lo as int]@));
        if let (Some(item), Some(key)) = (items.pop(), keys.pop()) {
            assert(key_view(key@) == kv[lo as int]);
            let mut low: usize = 0;
            let mut high: usize = done.len();
            while low < high
                invariant
                    low <= high <= done@.len(),
                    done@.len() == places.len(),
                    key_views(done@) == arranged(kv, places),
                    stable_from(kv, lo + 1, places),
                    key_view(key@) == kv[lo as int],
                    forall|j: int| 0 <= j < low ==> key_before(kv[#[trigger] places[j]], kv[lo as int]),
                    forall|j: int|
                        high <= j < places.len() ==> !key_before(kv[#[trigger] places[j]], kv[lo as int]),
                decreases high - low,
            {
                let mid: usize = low + (high - low) / 2;
                assert(key_view(done@[mid as int]@) == key_views(done@)[mid as int]);
                assert(arranged(kv, places)[mid as int] == kv[places[mid as int]]);
                if key_less(&done[mid], &key) {
                    proof {
                        assert forall|j: int| 0 <= j <= mid implies key_before(kv[#[trigger] places[j]], kv[lo as int]) by {
                            lemma_monotone(kv, lo + 1, places, j, mid as int, kv[lo as int]);
                        }
                    }
                    low = mid + 1;
                } else {
                    proof {
                        assert forall|j: int| mid <= j < places.len() implies !key_before(kv[#[trigger] places[j]], kv[lo as int]) by {
                            if key_before(kv[places[j]], kv[lo as int]) {
                                lemma_monotone(kv, lo + 1, places, mid as int, j, kv[lo as int]);
                            }
                        }
                    }
                    high = mid;
                }
            }
            proof {
                lemma_insert(kv, lo as int, places, low as int);
            }
            sorted.insert(low, item);
            done.insert(low, key);
            proof {
                let more = places.insert(low as int, lo as int);
                assert(sorted@ =~= arranged(all, more));
                assert forall|j: int| 0 <= j < more.len() implies key_views(done@)[j] == #[trigger] kv[more[j]] by {
                    if j < low {
                        assert(key_views(done_before)[j] == arranged(kv, places)[j]);
                    } else if j > low {
                        assert(key_views(done_before)[j - 1] == arranged(kv, places)[j - 1]);
                    }
                }
                assert(key_views(done@) =~= arranged(kv, more));
                places = more;
            }
        }
        assert(items@ =~= all.take(lo as int));
        assert(key_views(keys@) =~= kv.take(lo as int));
    }
    proof {
        law_stable_order_unique(kv, places);
    }
    sorted
}

/// A row of one and the same byte.
pub open spec fn repeated(byte: u8, n: nat) -> Seq<u8> {
    Seq::new(n, |i: int| byte)
}

/// The bytes of a number in decimal notation.
pub open spec fn decimal_bytes(n: nat) -> Seq<u8> {
    decimal(n).map_values(|c: char| c as u8)
}

/// The byte string by which a number is ordered: a mark for each of its decimal digits, so that
/// a longer number comes later, and then the digits.
pub open spec fn number_key(n: nat) -> Seq<u8> {
    repeated(255, decimal(n).len()) + decimal_bytes(n)
}

/// A byte string and another with the same beginning are ordered by what follows.
proof fn lemma_same_beginning(p: Seq<u8>, x: Seq<u8>, y: Seq<u8>)
    ensures
        bytes_before(p + x, p + y) == bytes_before(x, y),
    decreases p.len(),
{
    if p.len() == 0 {
        assert(p + x =~= x && p + y =~= y);
    } else {
        lemma_same_beginning(p.drop_first(), x, y);
        assert((p + x).drop_first() =~= p.drop_first() + x);
        assert((p + y).drop_first() =~= p.drop_first() + y);
    }
}

/// Of two byte strings of one length, the first difference decides whatever follows.
proof fn lemma_difference_decides(p: Seq<u8>, q: Seq<u8>, x: u8, y: u8)
    requires
        p.len() == q.len(),
        bytes_before(p, q),
    ensures
        bytes_before(p.push(x), q.push(y)),
    decreases p.len(),
{
    if p[0] == q[0] {
        lemma_difference_decides(p.drop_first(), q.drop_first(), x, y);
        assert(p.push(x).drop_first() =~= p.drop_first().push(x));
        assert(q.push(y).drop_first() =~= q.drop_first().push(y));
    }
}

/// A smaller number has no more digits.
proof fn lemma_fewer_digits(a: nat, b: nat)
    requires
        a <= b,
    ensures
        1 <= decimal(a).len() <= decimal(b).len(),
    decreases b,
{
    lemma_decimal(a);
    lemma_decimal(b);
    if a >= 10 {
        lemma_fewer_digits(a / 10, b / 10);
    }
}

/// Of two numbers with as many digits, the smaller one comes first.
proof fn lemma_as_many_digits(a: nat, b: nat)
    requires
        a < b,
        decimal(a).len() == decimal(b).len(),
    ensures
        bytes_before(decimal_bytes(a), decimal_bytes(b)),
    decreases b,
{
    let x = digit_char(a % 10) as u8;
    let y = digit_char(b % 10) as u8;
    assert(x == 48 + a % 10 && y == 48 + b % 10);
    if b >= 10 {
        lemma_decimal(b / 10);
    }
    if a < 10 {
        assert(b < 10);
        assert(decimal_bytes(a) =~= seq![x]);
        assert(decimal_bytes(b) =~= seq![y]);
    } else {
        let p = decimal_bytes(a / 10);
        let q = decimal_bytes(b / 10);
        assert(decimal_bytes(a) =~= p.push(x));
        assert(decimal_bytes(b) =~= q.push(y));
        if a / 10 == b / 10 {
            lemma_same_beginning(p, seq![x], seq![y]);
            assert(p + seq![x] =~= p.push(x) && q + seq![y] =~= q.push(y));
        } else {
            lemma_as_many_digits(a / 10, b / 10);
            lemma_difference_decides(p, q, x, y);
        }
    }
}

/// The key of a smaller number comes first.
proof fn lemma_smaller_first(a: nat, b: nat)
    requires
        a < b,
    ensures
        bytes_before(number_key(a), number_key(b)),
{
    let m = decimal(a).len();
    let n = decimal(b).len();
    let x = decimal_bytes(a);
    let y = decimal_bytes(b);
    lemma_fewer_digits(a, b);
    if m == n {
        lemma_as_many_digits(a, b);
        lemma_same_beginning(repeated(255, m), x, y);
    } else {
        let rest = repeated(255, (n - m) as nat) + y;
        assert(number_key(b) =~= repeated(255, m) + rest);
        lemma_same_beginning(repeated(255, m), x, rest);
        lemma_decimal(a);
        assert(is_digit(decimal(a)[0]));
        assert(x[0] == decimal(a)[0] as u8);
        assert(rest[0] == 255);
    }
}

/// The keys of numbers are ordered as the numbers are.
pub proof fn law_number_key(a: nat, b: nat)
    ensures
        bytes_before(number_key(a), number_key(b)) <==> a < b,
        number_key(a) == number_key(b) <==> a == b,
{
    lemma_bytes_irreflexive(number_key(a));
    if a < b {
        lemma_smaller_first(a, b);
    } else if b < a {
        lemma_smaller_first(b, a);
        if bytes_before(number_key(a), number_key(b)) {
            lemma_bytes_transitive(number_key(a), number_key(b), number_key(a));
        }
    }
}

/// The key by which the number that a row of digits denotes is ordered.
pub fn digits_key(digits: &[char]) -> (key: Vec<u8>)
    requires
        digits@.len() > 0,
        forall|i: int| 0 <= i < digits@.len() ==> is_digit(#[trigger] digits@[i]),
    ensures
        key@ == number_key(digits_value(digits@)),
{
    let plain = plain_digits(digits);
    let ghost n = digits_value(digits@);
    let mut key: Vec<u8> = Vec::new();
    let mut i: usize = 0;
    while i < plain.len()
        invariant
            i <= plain@.len(),
            key@ == repeated(255, i as nat),
        decreases plain@.len() - i,
    {
        key.push(255);
        i += 1;
        assert(key@ =~= repeated(255, i as nat));
    }
    let mut j: usize = 0;
    assert(key@ =~= repeated(255, decimal(n).len()) + decimal_bytes(n).take(0));
    while j < plain.len()
        invariant
            j <= plain@.len(),
            plain@ == decimal(n),
            key@ == repeated(255, decimal(n).len()) + decimal_bytes(n).take(j as int),
        decreases plain@.len() - j,
    {
        proof {
            lemma_decimal(n);
            assert(is_digit(decimal(n)[j as int]));
        }
        let byte: u8 = plain[j] as u8;
        let ghost before = key@;
        key.push(byte);
        assert(decimal_bytes(n).take(j + 1) =~= decimal_bytes(n).take(j as int).push(byte));
        assert(key@ =~= repeated(255, decimal(n).len()) + decimal_bytes(n).take(j + 1));
        j += 1;
    }
    assert(decimal_bytes(n).take(j as int) =~= decimal_bytes(n));
    key
}

/// Whether a row comes before another at a place: up to there they agree, and then the first
/// one ends or has the smaller byte.
pub open spec fn bytes_decided_at(a: Seq<u8>, b: Seq<u8>, k: int) -> bool {
    &&& 0 <= k <= a.len() && k < b.len()
    &&& a.take(k) == b.take(k)
    &&& k == a.len() || a[k] < b[k]
}

/// Byte strings are ordered by their first difference.
pub proof fn lemma_bytes_decided(a: Seq<u8>, b: Seq<u8>)
    ensures
        bytes_before(a, b) <==> exists|k: int| bytes_decided_at(a, b, k),
    decreases a.len(),
{
    if a.len() > 0 && b.len() > 0 && a[0] == b[0] {
        let x = a.drop_first();
        let y = b.drop_first();
        lemma_bytes_decided(x, y);
        if bytes_before(a, b) {
            let k = choose|k: int| bytes_decided_at(x, y, k);
            assert(a.take(k + 1) =~= seq![a[0]] + x.take(k));
            assert(b.take(k + 1) =~= seq![b[0]] + y.take(k));
            assert(bytes_decided_at(a, b, k + 1));
        }
        if exists|k: int| bytes_decided_at(a, b, k) {
            let k = choose|k: int| bytes_decided_at(a, b, k);
            assert(k > 0);
            assert(x.take(k - 1) =~= a.take(k).drop_first());
            assert(y.take(k - 1) =~= b.take(k).drop_first());
            assert(bytes_decided_at(x, y, k - 1));
        }
    } else {
        if bytes_before(a, b) {
            assert(a.take(0) =~= b.take(0));
            assert(bytes_decided_at(a, b, 0));
        }
        if exists|k: int| bytes_decided_at(a, b, k) {
            let k = choose|k: int| bytes_decided_at(a, b, k);
            if k > 0 {
                assert(a.take(k)[0] == a[0] && b.take(k)[0] == b[0]);
            }
        }
    }
}

/// Byte strings are compared whole: the first difference decides, and a string that ends there
/// comes first.
pub proof fn law_bytes_compared(a: &[u8], b: &[u8], less: bool)
    requires
        call_ensures(bytes_less, (a, b), less),
    ensures
        less <==> exists|k: int| bytes_decided_at(a@, b@, k),
{
    lemma_bytes_decided(a@, b@);
}

/// Whether a key comes before another at a place: up to there they agree, and then the first
/// one ends or has the string that comes first.
pub open spec fn key_decided_at(a: Seq<Seq<u8>>, b: Seq<Seq<u8>>, k: int) -> bool {
    &&& 0 <= k <= a.len() && k < b.len()
    &&& a.take(k) == b.take(k)
    &&& k == a.len() || exists|i: int| bytes_decided_at(a[k], b[k], i)
}

/// Keys are ordered by their first difference.
pub proof fn lemma_key_decided(a: Seq<Seq<u8>>, b: Seq<Seq<u8>>)
    ensures
        key_before(a, b) <==> exists|k: int| key_decided_at(a, b, k),
    decreases a.len(),
{
    if a.len() > 0 && b.len() > 0 {
        lemma_bytes_decided(a[0], b[0]);
        lemma_bytes_irreflexive(a[0]);
    }
    if a.len() > 0 && b.len() > 0 && a[0] == b[0] {
        let x = a.drop_first();
        let y = b.drop_first();
        lemma_key_decided(x, y);
        if key_before(a, b) {
            let k = choose|k: int| key_decided_at(x, y, k);
            assert(a.take(k + 1) =~= seq![a[0]] + x.take(k));
            assert(b.take(k + 1) =~= seq![b[0]] + y.take(k));
            assert(key_decided_at(a, b, k + 1));
        }
        if exists|k: int| key_decided_at(a, b, k) {
            let k = choose|k: int| key_decided_at(a, b, k);
            assert(k > 0);
            assert(x.take(k - 1) =~= a.take(k).drop_first());
            assert(y.take(k - 1) =~= b.take(k).drop_first());
            assert(y[k - 1] == b[k]);
            if k < a.len() {
                assert(x[k - 1] == a[k]);
                let i = choose|i: int| bytes_decided_at(a[k], b[k], i);
                assert(bytes_decided_at(x[k - 1], y[k - 1], i));
            }
            assert(key_decided_at(x, y, k - 1));
        }
    } else {
        if key_before(a, b) {
            assert(a.take(0) =~= b.take(0));
            assert(key_decided_at(a, b, 0));
        }
        if exists|k: int| key_decided_at(a, b, k) {
            let k = choose|k: int| key_decided_at(a, b, k);
            if k > 0 {
                assert(a.take(k)[0] == a[0] && b.take(k)[0] == b[0]);
            }
        }
    }
}

/// Keys are compared whole: the first string that differs decides, and a key that ends there
/// comes first.
pub proof fn law_keys_compared(a: &Vec<Vec<u8>>, b: &Vec<Vec<u8>>, less: bool)
    requires
        call_ensures(key_less, (a, b), less),
    ensures
        less <==> exists|k: int| key_decided_at(key_view(a@), key_view(b@), k),
{
    lemma_key_decided(key_view(a@), key_view(b@));
}

/// Whether one key comes before another, by their first difference.
pub open spec fn comes_first(a: Seq<Seq<u8>>, b: Seq<Seq<u8>>) -> bool {
    exists|k: int| key_decided_at(a, b, k)
}

/// Sorting takes every item to one place, so that keys rise, and items with one key keep their
/// order.
pub proof fn law_sorts_all<T>(items: Vec<T>, keys: Vec<Vec<Vec<u8>>>, sorted: Vec<T>) -> (places: Seq<int>)
    requires
        items@.len() == keys@.len(),
        call_ensures(sort_by_keys::<T>, (items, keys), sorted),
    ensures
        sorted@.len() == items@.len(),
        places.len() == items@.len(),
        sorted@.to_multiset() == items@.to_multiset(),
        forall|i: int| 0 <= i < places.len() ==> 0 <= #[trigger] places[i] < items@.len(),
        forall|k: int| 0 <= k < items@.len() ==> #[trigger] places.contains(k),
        forall|i: int| 0 <= i < places.len() ==> #[trigger] sorted@[i] == items@[places[i]],
        forall|i: int, j: int|
            0 <= i < j < places.len() ==> {
                let a = key_view(keys@[#[trigger] places[i]]@);
                let b = key_view(keys@[#[trigger] places[j]]@);
                comes_first(a, b) || (a == b && places[i] < places[j])
            },
{
    let kv = key_views(keys@);
    let places = sorting(kv);
    law_stable_order_unique(kv, places);
    law_sorted(items@, kv);
    assert forall|i: int, j: int| 0 <= i < j < places.len() implies {
        let a = key_view(keys@[#[trigger] places[i]]@);
        let b = key_view(keys@[#[trigger] places[j]]@);
        comes_first(a, b) || (a == b && places[i] < places[j])
    } by {
        assert(belongs_before(kv, places[i], places[j]));
        assert(kv[places[i]] == key_view(keys@[places[i]]@) && kv[places[j]] == key_view(keys@[places[j]]@));
        lemma_key_decided(kv[places[i]], kv[places[j]]);
    }
    places
}

/// Byte strings are equal exactly if they have the same bytes.
pub proof fn law_bytes_equal(a: &[u8], b: &[u8], r: bool)
    requires
        call_ensures(bytes_equal, (a, b), r),
    ensures
        r <==> a@.len() == b@.len() && forall|i: int| 0 <= i < a@.len() ==> a@[i] == b@[i],
{
    if a@.len() == b@.len() && forall|i: int| 0 <= i < a@.len() ==> a@[i] == b@[i] {
        assert(a@ =~= b@);
    }
}

/// The keys of rows of digits are ordered as the numbers that the rows denote by their places.
pub proof fn law_digits_ordered(a: &[char], b: &[char], ka: Vec<u8>, kb: Vec<u8>)
    requires
        a@.len() > 0,
        b@.len() > 0,
        forall|i: int| 0 <= i < a@.len() ==> is_digit(#[trigger] a@[i]),
        forall|i: int| 0 <= i < b@.len() ==> is_digit(#[trigger] b@[i]),
        call_ensures(digits_key, (a,), ka),
        call_ensures(digits_key, (b,), kb),
    ensures
        (exists|k: int| bytes_decided_at(ka@, kb@, k)) <==> place_value(a@) < place_value(b@),
        ka@ == kb@ <==> place_value(a@) == place_value(b@),
{
    lemma_place_value(a@);
    lemma_place_value(b@);
    law_number_key(digits_value(a@), digits_value(b@));
    lemma_bytes_decided(ka@, kb@);
}

} // verus!
