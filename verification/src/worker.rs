//! The render queue and its cache. Engraving can take several seconds, so it happens away
//! from the user interface. Jobs carry a rising id, and only the newest queued one is run;
//! identical content that was already rendered is not engraved again.

use std::num::NonZeroUsize;

use lru::LruCache;
use vstd::prelude::*;
use vstd::utf8::{encode_utf8, encode_utf8_decode_utf8};

use crate::digest::blake3_digest;
use crate::digest::blake3_hash;
use crate::engraver::RenderRequest;
use crate::model::OutputView;
use crate::model::{Format, RenderOutput};
use crate::path::path_bytes;
use crate::path::to_bytes;
use crate::text::{decimal, lemma_decimal};
use crate::text::push_decimal;

verus! {

/// A queued render.
pub struct Job {
    pub id: u64,
    pub req: RenderRequest,
}

/// A completed render, tagged with the id of the job that produced it.
pub struct RenderResult {
    pub id: u64,
    pub output: RenderOutput,
}

/// The most renders that the cache holds.
pub const CACHE_CAP: usize = 64;

/// `lru::LruCache`, a bounded cache that drops what was not used for the longest time.
#[verifier::external_type_specification]
#[verifier::external_body]
#[verifier::reject_recursive_types(K)]
#[verifier::reject_recursive_types(V)]
#[verifier::reject_recursive_types(S)]
pub struct ExLruCache<K, V, S>(lru::LruCache<K, V, S>);

/// `lru::DefaultHasher`, with which the cache hashes its keys.
#[verifier::external_type_specification]
#[verifier::external_body]
pub struct ExDefaultHasher(lru::DefaultHasher);

/// What a cache holds, the most recently used entry first.
pub uninterp spec fn cache_entries(cache: LruCache<[u8; 32], RenderOutput>) -> Seq<
    (Seq<u8>, OutputView),
>;

/// The number of entries that a cache was made for.
pub uninterp spec fn cache_limit(cache: LruCache<[u8; 32], RenderOutput>) -> nat;

/// The entries with another key than the given one.
pub open spec fn without(entries: Seq<(Seq<u8>, OutputView)>, key: Seq<u8>) -> Seq<
    (Seq<u8>, OutputView),
>
    decreases entries.len(),
{
    if entries.len() == 0 {
        seq![]
    } else if entries.last().0 == key {
        without(entries.drop_last(), key)
    } else {
        without(entries.drop_last(), key).push(entries.last())
    }
}

/// The value of the first entry with a key, if there is one.
pub open spec fn cached(entries: Seq<(Seq<u8>, OutputView)>, key: Seq<u8>) -> Option<OutputView>
    decreases entries.len(),
{
    if entries.len() == 0 {
        None
    } else if entries[0].0 == key {
        Some(entries[0].1)
    } else {
        cached(entries.drop_first(), key)
    }
}

/// The entries after a key was looked up: its entry moves to the front.
pub open spec fn touched(entries: Seq<(Seq<u8>, OutputView)>, key: Seq<u8>) -> Seq<
    (Seq<u8>, OutputView),
> {
    match cached(entries, key) {
        Some(value) => seq![(key, value)] + without(entries, key),
        None => entries,
    }
}

/// The entries after a value was stored: its entry stands at the front, in place of one with
/// the same key if there was one; a full cache loses its last entry to a new key.
pub open spec fn stored(
    entries: Seq<(Seq<u8>, OutputView)>,
    limit: nat,
    key: Seq<u8>,
    value: OutputView,
) -> Seq<(Seq<u8>, OutputView)> {
    if cached(entries, key) is Some {
        seq![(key, value)] + without(entries, key)
    } else if entries.len() == limit {
        seq![(key, value)] + entries.drop_last()
    } else {
        seq![(key, value)] + entries
    }
}

/// `LruCache::new` makes an empty cache for the given number of entries. The number must be
/// one for which storage can be had.
#[verifier::external_body]
fn cache_new(cap: usize) -> (cache: LruCache<[u8; 32], RenderOutput>)
    requires
        0 < cap <= 0x1_0000,
    ensures
        cache_entries(cache) == Seq::<(Seq<u8>, OutputView)>::empty(),
        cache_limit(cache) == cap,
{
    LruCache::new(NonZeroUsize::new(cap).unwrap())
}

/// `LruCache::get` looks a key up and moves its entry, if there is one, to the front.
#[verifier::external_body]
fn cache_get<'a>(cache: &'a mut LruCache<[u8; 32], RenderOutput>, key: &[u8; 32]) -> (value: Option<
    &'a RenderOutput,
>)
    ensures
        match value {
            Some(v) => cached(cache_entries(*old(cache)), key@) == Some(v@),
            None => cached(cache_entries(*old(cache)), key@) is None,
        },
        cache_entries(*final(cache)) == touched(cache_entries(*old(cache)), key@),
        cache_limit(*final(cache)) == cache_limit(*old(cache)),
{
    cache.get(key)
}

/// `LruCache::put` stores a value at the front and hands back the one it replaces, if the key
/// was there. A full cache drops its least recently used entry for a new key.
#[verifier::external_body]
fn cache_put(cache: &mut LruCache<[u8; 32], RenderOutput>, key: [u8; 32], value: RenderOutput) -> (replaced:
    Option<RenderOutput>)
    ensures
        match replaced {
            Some(v) => cached(cache_entries(*old(cache)), key@) == Some(v@),
            None => cached(cache_entries(*old(cache)), key@) is None,
        },
        cache_entries(*final(cache)) == stored(
            cache_entries(*old(cache)),
            cache_limit(*old(cache)),
            key@,
            value@,
        ),
        cache_limit(*final(cache)) == cache_limit(*old(cache)),
{
    cache.put(key, value)
}

/// The number by which a format is told apart in a cache key.
pub open spec fn format_tag(format: Format) -> u8 {
    match format {
        Format::LilyPond => 0,
        Format::Abc => 1,
    }
}

/// A 32-bit number as four bytes, the least significant one first.
pub open spec fn le_bytes(n: u32) -> Seq<u8> {
    seq![
        (n % 256) as u8,
        (n / 256 % 256) as u8,
        (n / 65536 % 256) as u8,
        (n / 16777216) as u8,
    ]
}

/// The tune of a request as five bytes: the first one tells a single tune from all tunes.
pub open spec fn tune_bytes(tune: Option<u32>) -> Seq<u8> {
    match tune {
        Some(n) => seq![1u8] + le_bytes(n),
        None => seq![0u8] + le_bytes(0),
    }
}

/// The bytes that identify the content of a request: format, tune, base directory and source
/// text. A zero byte separates the directory from the source.
pub open spec fn key_bytes(format: Format, tune: Option<u32>, base_dir: Seq<u8>, source: Seq<char>) -> Seq<u8> {
    seq![format_tag(format)] + tune_bytes(tune) + base_dir + seq![0u8] + encode_utf8(source)
}

/// The content-addressed cache key of a request.
pub open spec fn request_key(req: RenderRequest) -> Seq<u8> {
    blake3_digest(key_bytes(req.format, req.tune, path_bytes(req.base_dir), req.source@))
}

/// The bytes that identify the content of a request whose base directory is given as bytes.
pub fn key_input(format: Format, tune: Option<u32>, base_dir: &[u8], source: &str) -> (bytes: Vec<u8>)
    ensures
        bytes@ == key_bytes(format, tune, base_dir@, source@),
{
    let tag: u8 = match format {
        Format::LilyPond => 0,
        Format::Abc => 1,
    };
    let (single, number): (u8, u32) = match tune {
        Some(n) => (1, n),
        None => (0, 0),
    };
    let mut bytes: Vec<u8> = Vec::new();
    bytes.push(tag);
    bytes.push(single);
    bytes.push((number % 256) as u8);
    bytes.push((number / 256 % 256) as u8);
    bytes.push((number / 65536 % 256) as u8);
    bytes.push((number / 16777216) as u8);
    bytes.extend_from_slice(base_dir);
    bytes.push(0);  // separator between path and source
    bytes.extend_from_slice(source.as_bytes());
    assert(bytes@ =~= key_bytes(format, tune, base_dir@, source@));
    bytes
}

/// Content-addressed cache key: format + tune + base dir + source text.
pub fn cache_key(req: &RenderRequest) -> (key: [u8; 32])
    ensures
        key@ == request_key(*req),
{
    let dir = to_bytes(&req.base_dir);
    let bytes = key_input(req.format, req.tune, dir.as_slice(), req.source.as_str());
    blake3_hash(bytes.as_slice())
}

/// Two byte strings without zeros, each followed by a zero and more, are equal where the
/// whole is equal.
proof fn lemma_split_at_zero(a: Seq<u8>, x: Seq<u8>, b: Seq<u8>, y: Seq<u8>)
    requires
        a + seq![0u8] + x == b + seq![0u8] + y,
        forall|i: int| 0 <= i < a.len() ==> #[trigger] a[i] != 0,
        forall|i: int| 0 <= i < b.len() ==> #[trigger] b[i] != 0,
    ensures
        a == b,
        x == y,
{
    let left = a + seq![0u8] + x;
    let right = b + seq![0u8] + y;
    assert(left[a.len() as int] == 0);
    assert(right[b.len() as int] == 0);
    if a.len() < b.len() {
        assert(right[a.len() as int] == b[a.len() as int]);
    } else if b.len() < a.len() {
        assert(left[b.len() as int] == a[b.len() as int]);
    }
    assert forall|i: int| 0 <= i < a.len() implies a[i] == b[i] by {
        assert(left[i] == a[i] && right[i] == b[i]);
    }
    assert(a =~= b);
    assert(x =~= left.skip(a.len() as int + 1));
    assert(y =~= right.skip(b.len() as int + 1));
}

/// Requests are told apart by what identifies their content: equal bytes come only from equal
/// formats, tunes, base directories and sources. A directory holds no NUL.
pub proof fn law_key_bytes_exact(
    f1: Format,
    t1: Option<u32>,
    d1: Seq<u8>,
    s1: Seq<char>,
    f2: Format,
    t2: Option<u32>,
    d2: Seq<u8>,
    s2: Seq<char>,
)
    requires
        !d1.contains(0),
        !d2.contains(0),
    ensures
        key_bytes(f1, t1, d1, s1) == key_bytes(f2, t2, d2, s2) <==> f1 == f2 && t1 == t2 && d1 == d2 && s1 == s2,
{
    let k1 = key_bytes(f1, t1, d1, s1);
    let k2 = key_bytes(f2, t2, d2, s2);
    if k1 == k2 {
        assert(k1[0] == format_tag(f1) && k2[0] == format_tag(f2));
        assert(k1.subrange(1, 6) =~= tune_bytes(t1));
        assert(k2.subrange(1, 6) =~= tune_bytes(t2));
        lemma_tune_bytes(t1, t2);
        assert(k1.skip(6) =~= d1 + seq![0u8] + encode_utf8(s1));
        assert(k2.skip(6) =~= d2 + seq![0u8] + encode_utf8(s2));
        lemma_split_at_zero(d1, encode_utf8(s1), d2, encode_utf8(s2));
        encode_utf8_decode_utf8(s1);
        encode_utf8_decode_utf8(s2);
    }
}

/// Different numbers have different bytes.
proof fn lemma_le_bytes(n1: u32, n2: u32)
    requires
        le_bytes(n1) == le_bytes(n2),
    ensures
        n1 == n2,
{
    let b1 = le_bytes(n1);
    let b2 = le_bytes(n2);
    assert(b1[0] == b2[0] && b1[1] == b2[1] && b1[2] == b2[2] && b1[3] == b2[3]);
    assert(n1 == n2) by (bit_vector)
        requires
            n1 % 256 == n2 % 256,
            n1 / 256 % 256 == n2 / 256 % 256,
            n1 / 65536 % 256 == n2 / 65536 % 256,
            n1 / 16777216 == n2 / 16777216,
    ;
}

/// Different tunes have different bytes.
proof fn lemma_tune_bytes(t1: Option<u32>, t2: Option<u32>)
    requires
        tune_bytes(t1) == tune_bytes(t2),
    ensures
        t1 == t2,
{
    let b1 = tune_bytes(t1);
    let b2 = tune_bytes(t2);
    assert(b1[0] == b2[0]);
    if let (Some(n1), Some(n2)) = (t1, t2) {
        assert(b1.skip(1) =~= le_bytes(n1));
        assert(b2.skip(1) =~= le_bytes(n2));
        lemma_le_bytes(n1, n2);
    }
}

/// The newest of the jobs that are waiting: older ones are superseded.
pub fn newest(first: Job, queued: Vec<Job>) -> (job: Job)
    ensures
        job == if queued@.len() > 0 {
            queued@.last()
        } else {
            first
        },
{
    let mut queued = queued;
    match queued.pop() {
        Some(job) => job,
        None => first,
    }
}

/// The render cache: outputs by the content of the request that produced them.
pub struct RenderCache {
    inner: LruCache<[u8; 32], RenderOutput>,
}

/// Whether no two entries have the same key.
pub open spec fn keys_distinct(entries: Seq<(Seq<u8>, OutputView)>) -> bool {
    forall|i: int, j: int| 0 <= i < j < entries.len() ==> (#[trigger] entries[i]).0 != (#[trigger] entries[j]).0
}

/// Whether entries can be those of a render cache: a bounded number, each key once, and
/// nothing but successful renders.
pub open spec fn valid_entries(entries: Seq<(Seq<u8>, OutputView)>) -> bool {
    &&& entries.len() <= CACHE_CAP
    &&& keys_distinct(entries)
    &&& forall|i: int| 0 <= i < entries.len() ==> (#[trigger] entries[i]).1.ok
}

/// What is left of entries without those of a key.
proof fn lemma_without(entries: Seq<(Seq<u8>, OutputView)>, key: Seq<u8>)
    ensures
        without(entries, key).len() <= entries.len(),
        forall|i: int| 0 <= i < without(entries, key).len() ==> (#[trigger] without(entries, key)[i]).0 != key,
        forall|i: int|
            0 <= i < without(entries, key).len() ==> entries.contains(#[trigger] without(entries, key)[i]),
        keys_distinct(entries) ==> keys_distinct(without(entries, key)),
        cached(entries, key) is Some ==> without(entries, key).len() < entries.len(),
    decreases entries.len(),
{
    if entries.len() > 0 {
        let init = entries.drop_last();
        let rest = without(init, key);
        lemma_without(init, key);
        let all = without(entries, key);
        assert forall|i: int| 0 <= i < all.len() implies entries.contains(#[trigger] all[i]) by {
            if i < rest.len() {
                assert(all[i] == rest[i]);
                assert(init.contains(rest[i]));
                let j = init.index_of(rest[i]);
                assert(entries[j] == rest[i]);
            } else {
                assert(all[i] == entries[entries.len() - 1]);
            }
        }
        if keys_distinct(entries) {
            assert(keys_distinct(init));
            assert forall|i: int, j: int| 0 <= i < j < all.len() implies (#[trigger] all[i]).0 != (#[trigger] all[j]).0 by {
                assert(all[i] == rest[i]);
                assert(init.contains(rest[i]));
                let k = init.index_of(rest[i]);
                if j < rest.len() {
                    assert(all[j] == rest[j]);
                } else {
                    assert(entries[k] == rest[i]);
                    assert(all[j] == entries[entries.len() - 1]);
                }
            }
        }
        if cached(entries, key) is Some && entries.last().0 != key {
            lemma_cached(entries, key);
            lemma_cached(init, key);
            if cached(init, key) is None {
                let i = choose|i: int| 0 <= i < entries.len() && (#[trigger] entries[i]).0 == key;
                assert(init[i].0 != key);
            }
        }
    }
}

/// A key is found where an entry has it, and only there.
proof fn lemma_cached(entries: Seq<(Seq<u8>, OutputView)>, key: Seq<u8>)
    ensures
        match cached(entries, key) {
            Some(value) => exists|i: int|
                0 <= i < entries.len() && (#[trigger] entries[i]).0 == key && entries[i].1 == value,
            None => forall|i: int| 0 <= i < entries.len() ==> (#[trigger] entries[i]).0 != key,
        },
    decreases entries.len(),
{
    if entries.len() > 0 && entries[0].0 != key {
        let rest = entries.drop_first();
        lemma_cached(rest, key);
        match cached(entries, key) {
            Some(value) => {
                let i = choose|i: int|
                    0 <= i < rest.len() && (#[trigger] rest[i]).0 == key && rest[i].1 == value;
                assert(entries[i + 1] == rest[i]);
            },
            None => {
                assert forall|i: int| 0 <= i < entries.len() implies (#[trigger] entries[i]).0 != key by {
                    if i > 0 {
                        assert(rest[i - 1] == entries[i]);
                    }
                }
            },
        }
    } else if entries.len() > 0 {
        assert(entries[0].0 == key);
    }
}

/// Of distinct keys, the value found is that of the entry with the key.
proof fn lemma_cached_at(entries: Seq<(Seq<u8>, OutputView)>, i: int)
    requires
        keys_distinct(entries),
        0 <= i < entries.len(),
    ensures
        cached(entries, entries[i].0) == Some(entries[i].1),
{
    let key = entries[i].0;
    lemma_cached(entries, key);
    match cached(entries, key) {
        Some(value) => {
            let j = choose|j: int|
                0 <= j < entries.len() && (#[trigger] entries[j]).0 == key && entries[j].1 == value;
            if i < j {
                assert(entries[i].0 != entries[j].0);
            } else if j < i {
                assert(entries[j].0 != entries[i].0);
            }
        },
        None => {
            assert(entries[i].0 != key);
        },
    }
}

/// Entries in front of which one with a new key is put stay distinct and successful.
proof fn lemma_in_front(entries: Seq<(Seq<u8>, OutputView)>, key: Seq<u8>, value: OutputView)
    requires
        keys_distinct(entries),
        forall|i: int| 0 <= i < entries.len() ==> (#[trigger] entries[i]).1.ok,
        forall|i: int| 0 <= i < entries.len() ==> (#[trigger] entries[i]).0 != key,
        value.ok,
    ensures
        keys_distinct(seq![(key, value)] + entries),
        forall|i: int| 0 <= i <= entries.len() ==> (#[trigger] (seq![(key, value)] + entries)[i]).1.ok,
{
    let all = seq![(key, value)] + entries;
    assert forall|i: int, j: int| 0 <= i < j < all.len() implies (#[trigger] all[i]).0 != (#[trigger] all[j]).0 by {
        assert(all[j] == entries[j - 1]);
        if i > 0 {
            assert(all[i] == entries[i - 1]);
        }
    }
    assert forall|i: int| 0 <= i <= entries.len() implies (#[trigger] all[i]).1.ok by {
        if i > 0 {
            assert(all[i] == entries[i - 1]);
        }
    }
}

/// The rest of valid entries without a key is distinct and successful.
proof fn lemma_without_valid(entries: Seq<(Seq<u8>, OutputView)>, key: Seq<u8>)
    requires
        valid_entries(entries),
    ensures
        keys_distinct(without(entries, key)),
        forall|i: int| 0 <= i < without(entries, key).len() ==> (#[trigger] without(entries, key)[i]).1.ok,
{
    lemma_without(entries, key);
    let rest = without(entries, key);
    assert forall|i: int| 0 <= i < rest.len() implies (#[trigger] rest[i]).1.ok by {
        assert(entries.contains(rest[i]));
        let j = entries.index_of(rest[i]);
        assert(entries[j] == rest[i]);
    }
}

/// A look-up keeps entries valid.
proof fn lemma_touched(entries: Seq<(Seq<u8>, OutputView)>, key: Seq<u8>)
    requires
        valid_entries(entries),
    ensures
        valid_entries(touched(entries, key)),
{
    lemma_cached(entries, key);
    if let Some(value) = cached(entries, key) {
        lemma_without(entries, key);
        lemma_without_valid(entries, key);
        lemma_in_front(without(entries, key), key, value);
    }
}

/// Storing a successful render keeps entries valid.
proof fn lemma_stored(entries: Seq<(Seq<u8>, OutputView)>, key: Seq<u8>, value: OutputView)
    requires
        valid_entries(entries),
        value.ok,
    ensures
        valid_entries(stored(entries, CACHE_CAP as nat, key, value)),
{
    lemma_cached(entries, key);
    if cached(entries, key) is Some {
        lemma_without(entries, key);
        lemma_without_valid(entries, key);
        lemma_in_front(without(entries, key), key, value);
    } else if entries.len() == CACHE_CAP {
        lemma_in_front(entries.drop_last(), key, value);
    } else {
        lemma_in_front(entries, key, value);
    }
}

/// What was stored is found again: a render is not repeated for identical content.
pub proof fn law_cache_recalls(
    entries: Seq<(Seq<u8>, OutputView)>,
    limit: nat,
    key: Seq<u8>,
    value: OutputView,
)
    ensures
        cached(stored(entries, limit, key, value), key) == Some(value),
{
    assert(stored(entries, limit, key, value)[0] == (key, value));
}

/// Taking one key out changes nothing about another.
proof fn lemma_without_other(entries: Seq<(Seq<u8>, OutputView)>, key: Seq<u8>, other: Seq<u8>)
    requires
        other != key,
        keys_distinct(entries),
    ensures
        cached(without(entries, key), other) == cached(entries, other),
{
    let rest = without(entries, key);
    lemma_without(entries, key);
    lemma_cached(entries, other);
    lemma_cached(rest, other);
    match cached(rest, other) {
        Some(value) => {
            let i = choose|i: int|
                0 <= i < rest.len() && (#[trigger] rest[i]).0 == other && rest[i].1 == value;
            assert(entries.contains(rest[i]));
            lemma_cached_at(entries, entries.index_of(rest[i]));
        },
        None => {
            if let Some(value) = cached(entries, other) {
                let i = choose|i: int|
                    0 <= i < entries.len() && (#[trigger] entries[i]).0 == other && entries[i].1 == value;
                lemma_without_keeps(entries, key, i);
                let j = rest.index_of(entries[i]);
                assert(rest[j].0 == other);
            }
        },
    }
}

/// An entry with another key is kept.
proof fn lemma_without_keeps(entries: Seq<(Seq<u8>, OutputView)>, key: Seq<u8>, i: int)
    requires
        0 <= i < entries.len(),
        entries[i].0 != key,
    ensures
        without(entries, key).contains(entries[i]),
    decreases entries.len(),
{
    let init = entries.drop_last();
    let all = without(entries, key);
    if i < init.len() {
        lemma_without_keeps(init, key, i);
        let j = without(init, key).index_of(entries[i]);
        assert(all[j] == entries[i]);
    } else {
        assert(all[all.len() - 1] == entries[i]);
    }
}

/// An entry in front of others hides none with another key.
proof fn lemma_behind(entries: Seq<(Seq<u8>, OutputView)>, first: (Seq<u8>, OutputView), other: Seq<u8>)
    requires
        other != first.0,
    ensures
        cached(seq![first] + entries, other) == cached(entries, other),
{
    assert((seq![first] + entries).drop_first() =~= entries);
}

/// A look-up changes what is kept longest, never what is found.
pub proof fn law_look_up_keeps(entries: Seq<(Seq<u8>, OutputView)>, key: Seq<u8>, other: Seq<u8>)
    requires
        valid_entries(entries),
    ensures
        cached(touched(entries, key), other) == cached(entries, other),
{
    if let Some(value) = cached(entries, key) {
        if other != key {
            lemma_behind(without(entries, key), (key, value), other);
            lemma_without_other(entries, key, other);
        } else {
            assert(touched(entries, key)[0] == (key, value));
        }
    }
}

/// Storing a render loses no other one, except that a full cache loses the least recently
/// used one to a new key.
pub proof fn law_store_keeps(
    entries: Seq<(Seq<u8>, OutputView)>,
    key: Seq<u8>,
    value: OutputView,
    other: Seq<u8>,
)
    requires
        valid_entries(entries),
        other != key,
        entries.len() < CACHE_CAP || cached(entries, key) is Some || other != entries.last().0,
    ensures
        cached(stored(entries, CACHE_CAP as nat, key, value), other) == cached(entries, other),
{
    if cached(entries, key) is Some {
        lemma_behind(without(entries, key), (key, value), other);
        lemma_without_other(entries, key, other);
    } else if entries.len() == CACHE_CAP {
        let init = entries.drop_last();
        lemma_behind(init, (key, value), other);
        lemma_cached(entries, other);
        lemma_cached(init, other);
        match cached(init, other) {
            Some(v) => {
                let i = choose|i: int| 0 <= i < init.len() && (#[trigger] init[i]).0 == other && init[i].1 == v;
                lemma_cached_at(entries, i);
            },
            None => {
                if let Some(v) = cached(entries, other) {
                    let i = choose|i: int|
                        0 <= i < entries.len() && (#[trigger] entries[i]).0 == other && entries[i].1 == v;
                    assert(init[i].0 != other);
                }
            },
        }
    } else {
        lemma_behind(entries, (key, value), other);
    }
}

impl RenderCache {
    /// What the cache holds, the most recently used entry first.
    pub closed spec fn entries(self) -> Seq<(Seq<u8>, OutputView)> {
        cache_entries(self.inner)
    }

    /// The validity of a cache.
    pub closed spec fn valid(self) -> bool {
        cache_limit(self.inner) == CACHE_CAP && valid_entries(self.entries())
    }

    /// A valid cache holds a bounded number of successful renders, each key once.
    pub proof fn law_valid(self)
        requires
            self.valid(),
        ensures
            valid_entries(self.entries()),
    {
    }

    /// An empty cache.
    pub fn new() -> (cache: RenderCache)
        ensures
            cache.valid(),
            cache.entries() == Seq::<(Seq<u8>, OutputView)>::empty(),
    {
        RenderCache { inner: cache_new(CACHE_CAP) }
    }

    /// The output of an identical request that was already rendered. A forced request is not
    /// looked up.
    pub fn look_up(&mut self, req: &RenderRequest) -> (hit: Option<RenderOutput>)
        requires
            old(self).valid(),
        ensures
            final(self).valid(),
            final(self).entries() == if req.force {
                old(self).entries()
            } else {
                touched(old(self).entries(), request_key(*req))
            },
            match hit {
                Some(output) => !req.force && cached(old(self).entries(), request_key(*req)) == Some(
                    output@,
                ),
                None => req.force || cached(old(self).entries(), request_key(*req)) is None,
            },
    {
        if req.force {
            return None;
        }
        let key = cache_key(req);
        proof {
            lemma_touched(self.entries(), key@);
        }
        match cache_get(&mut self.inner, &key) {
            Some(output) => Some(output.clone()),
            None => None,
        }
    }

    /// Remembers the output of a request, if the render succeeded.
    pub fn remember(&mut self, req: &RenderRequest, output: &RenderOutput)
        requires
            old(self).valid(),
        ensures
            final(self).valid(),
            final(self).entries() == if output.ok {
                stored(old(self).entries(), CACHE_CAP as nat, request_key(*req), output@)
            } else {
                old(self).entries()
            },
    {
        if output.ok {
            let key = cache_key(req);
            proof {
                lemma_stored(self.entries(), key@, output@);
            }
            cache_put(&mut self.inner, key, output.clone());
        }
    }

    /// Starts a job: if identical content was already rendered, its result is at hand, and
    /// the engraver is not run.
    pub fn start_job(&mut self, job: &Job) -> (result: Option<RenderResult>)
        requires
            old(self).valid(),
        ensures
            final(self).valid(),
            final(self).entries() == if job.req.force {
                old(self).entries()
            } else {
                touched(old(self).entries(), request_key(job.req))
            },
            match result {
                Some(r) => {
                    &&& !job.req.force
                    &&& r.id == job.id
                    &&& cached(old(self).entries(), request_key(job.req)) == Some(r.output@)
                },
                None => job.req.force || cached(old(self).entries(), request_key(job.req)) is None,
            },
    {
        match self.look_up(&job.req) {
            Some(output) => Some(RenderResult { id: job.id, output }),
            None => None,
        }
    }

    /// Finishes a job that was engraved: a successful output is remembered.
    pub fn finish_job(&mut self, job: &Job, output: RenderOutput) -> (result: RenderResult)
        requires
            old(self).valid(),
        ensures
            final(self).valid(),
            final(self).entries() == if output.ok {
                stored(old(self).entries(), CACHE_CAP as nat, request_key(job.req), output@)
            } else {
                old(self).entries()
            },
            result.id == job.id,
            result.output == output,
    {
        self.remember(&job.req, &output);
        RenderResult { id: job.id, output }
    }
}

/// The name of the directory, among temporary files, that a process uses for its renders.
pub fn scratch_name(process: u32) -> (name: String)
    ensures
        name@ == "lilyabc-"@ + decimal(process as nat),
{
    let mut name = String::from_str("lilyabc-");
    push_decimal(&mut name, process as u64);
    name
}

/// The name of the scratch directory of a job.
pub fn work_name(id: u64) -> (name: String)
    ensures
        name@ == "job-"@ + decimal(id as nat),
{
    let mut name = String::from_str("job-");
    push_decimal(&mut name, id);
    name
}

/// Cache keys are hashes of bytes that tell requests apart: the bytes are equal exactly if format,
/// tune, base directory and source text are equal, for every format and every source. Whether a
/// render is forced is no part of the key. A directory holds no zero byte.
pub proof fn law_cache_keys_exact(a: RenderRequest, b: RenderRequest, ka: [u8; 32], kb: [u8; 32]) -> (bytes: (
    Seq<u8>,
    Seq<u8>,
))
    requires
        call_ensures(cache_key, (&a,), ka),
        call_ensures(cache_key, (&b,), kb),
        !path_bytes(a.base_dir).contains(0),
        !path_bytes(b.base_dir).contains(0),
    ensures
        ka@ == blake3_digest(bytes.0),
        kb@ == blake3_digest(bytes.1),
        bytes.0 == bytes.1 <==> a.format == b.format && a.tune == b.tune && path_bytes(a.base_dir) == path_bytes(
            b.base_dir,
        ) && a.source@ == b.source@,
{
    law_key_bytes_exact(
        a.format,
        a.tune,
        path_bytes(a.base_dir),
        a.source@,
        b.format,
        b.tune,
        path_bytes(b.base_dir),
        b.source@,
    );
    (
        key_bytes(a.format, a.tune, path_bytes(a.base_dir), a.source@),
        key_bytes(b.format, b.tune, path_bytes(b.base_dir), b.source@),
    )
}

/// The same holds of the bytes that are hashed, as they are put together.
pub proof fn law_key_input_exact(
    f1: Format,
    t1: Option<u32>,
    d1: &[u8],
    s1: &str,
    b1: Vec<u8>,
    f2: Format,
    t2: Option<u32>,
    d2: &[u8],
    s2: &str,
    b2: Vec<u8>,
)
    requires
        call_ensures(key_input, (f1, t1, d1, s1), b1),
        call_ensures(key_input, (f2, t2, d2, s2), b2),
        !d1@.contains(0),
        !d2@.contains(0),
    ensures
        b1@ == b2@ <==> f1 == f2 && t1 == t2 && d1@ == d2@ && s1@ == s2@,
{
    law_key_bytes_exact(f1, t1, d1@, s1@, f2, t2, d2@, s2@);
}

/// Requests with the same content have the same key.
pub proof fn law_same_content_same_key(a: RenderRequest, b: RenderRequest, ka: [u8; 32], kb: [u8; 32])
    requires
        call_ensures(cache_key, (&a,), ka),
        call_ensures(cache_key, (&b,), kb),
        a.format == b.format,
        a.tune == b.tune,
        path_bytes(a.base_dir) == path_bytes(b.base_dir),
        a.source@ == b.source@,
    ensures
        ka@ == kb@,
{
}

/// Of jobs with rising ids, the one with the greatest id is run, however many are waiting.
pub proof fn law_newest_job_run(first: Job, queued: Vec<Job>, job: Job)
    requires
        call_ensures(newest, (first, queued), job),
        forall|i: int| 0 <= i < queued@.len() ==> first.id < (#[trigger] queued@[i]).id,
        forall|i: int, j: int| 0 <= i < j < queued@.len() ==> (#[trigger] queued@[i]).id < (#[trigger] queued@[j]).id,
    ensures
        job == first || queued@.contains(job),
        first.id <= job.id,
        forall|i: int| 0 <= i < queued@.len() ==> (#[trigger] queued@[i]).id <= job.id,
{
    if queued@.len() > 0 {
        assert(queued@[queued@.len() - 1] == job);
    }
}

/// A successful render is recalled whole for every later job with the same content, without
/// running the engraver; a forced job is never answered from the cache.
pub proof fn law_render_recalled(
    cache: &mut RenderCache,
    job: Job,
    output: RenderOutput,
    result: RenderResult,
    later: &mut RenderCache,
    again: Job,
    hit: Option<RenderResult>,
)
    requires
        old(cache).valid(),
        call_ensures(RenderCache::finish_job, (cache, &job, output), result),
        *old(later) == *final(cache),
        call_ensures(RenderCache::start_job, (later, &again), hit),
        output.ok,
        again.req.format == job.req.format,
        again.req.tune == job.req.tune,
        path_bytes(again.req.base_dir) == path_bytes(job.req.base_dir),
        again.req.source@ == job.req.source@,
    ensures
        result.id == job.id,
        result.output@ == output@,
        again.req.force ==> hit is None,
        !again.req.force ==> hit is Some && hit->0.id == again.id && hit->0.output@ == output@,
{
    let key = request_key(job.req);
    law_cache_recalls(old(cache).entries(), CACHE_CAP as nat, key, output@);
}

/// What is recalled is what was rendered for the same key; a render that failed is not kept, and
/// an empty cache recalls nothing.
pub proof fn law_only_own_render_recalled(
    fresh: RenderCache,
    cache: &mut RenderCache,
    job: Job,
    output: RenderOutput,
    result: RenderResult,
    later: &mut RenderCache,
    again: Job,
    hit: Option<RenderResult>,
    key: [u8; 32],
    key_again: [u8; 32],
)
    requires
        call_ensures(RenderCache::new, (), fresh),
        *old(cache) == fresh,
        call_ensures(RenderCache::finish_job, (cache, &job, output), result),
        *old(later) == *final(cache),
        call_ensures(RenderCache::start_job, (later, &again), hit),
        call_ensures(cache_key, (&job.req,), key),
        call_ensures(cache_key, (&again.req,), key_again),
    ensures
        hit is Some ==> output.ok && key@ == key_again@ && hit->0.output@ == output@,
        !output.ok ==> hit is None,
{
    let none = Seq::<(Seq<u8>, OutputView)>::empty();
    assert(cached(none, key@) is None);
    assert(cached(none, key_again@) is None);
    let one = seq![(key@, output@)];
    assert(one + none =~= one);
    assert(one.drop_first() =~= none);
    reveal_with_fuel(cached, 2);
}

/// Every job that is answered or finished keeps the cache within its bounds, with each content
/// once and nothing but successful renders.
pub proof fn law_cache_stays_valid(
    cache: &mut RenderCache,
    job: Job,
    hit: Option<RenderResult>,
    later: &mut RenderCache,
    output: RenderOutput,
    result: RenderResult,
)
    requires
        old(cache).valid(),
        call_ensures(RenderCache::start_job, (cache, &job), hit),
        *old(later) == *final(cache),
        call_ensures(RenderCache::finish_job, (later, &job, output), result),
    ensures
        final(later).valid(),
        final(later).entries().len() <= 64,
        forall|i: int, j: int|
            0 <= i < j < final(later).entries().len() ==> (#[trigger] final(later).entries()[i]).0 != (
            #[trigger] final(later).entries()[j]).0,
        forall|i: int| 0 <= i < final(later).entries().len() ==> (#[trigger] final(later).entries()[i]).1.ok,
        hit is Some ==> hit->0.output.ok,
{
    let entries = old(cache).entries();
    let key = request_key(job.req);
    final(later).law_valid();
    lemma_cached(entries, key);
}

/// Scratch directories of different jobs, and of different processes, have different names.
pub proof fn law_scratch_names_differ(a: u64, b: u64, na: String, nb: String, p: u32, q: u32, np: String, nq: String)
    requires
        call_ensures(work_name, (a,), na),
        call_ensures(work_name, (b,), nb),
        call_ensures(scratch_name, (p,), np),
        call_ensures(scratch_name, (q,), nq),
    ensures
        na@ == nb@ <==> a == b,
        np@ == nq@ <==> p == q,
{
    let job = "job-"@;
    let root = "lilyabc-"@;
    lemma_decimal(a as nat);
    lemma_decimal(b as nat);
    lemma_decimal(p as nat);
    lemma_decimal(q as nat);
    assert(na@.skip(job.len() as int) =~= decimal(a as nat));
    assert(nb@.skip(job.len() as int) =~= decimal(b as nat));
    assert(np@.skip(root.len() as int) =~= decimal(p as nat));
    assert(nq@.skip(root.len() as int) =~= decimal(q as nat));
}

/// Storing another render loses none that the cache holds, as long as there is room; a full cache
/// loses the one that was not used for the longest time only. A render that is recalled becomes
/// the most recently used one.
pub proof fn law_other_renders_kept(
    before: &mut RenderCache,
    again: Job,
    hit: Option<RenderResult>,
    cache: &mut RenderCache,
    job: Job,
    output: RenderOutput,
    result: RenderResult,
    later: &mut RenderCache,
    later_hit: Option<RenderResult>,
    key: [u8; 32],
    key_again: [u8; 32],
)
    requires
        old(cache).valid(),
        *old(before) == *old(cache),
        call_ensures(RenderCache::start_job, (before, &again), hit),
        call_ensures(RenderCache::finish_job, (cache, &job, output), result),
        *old(later) == *final(cache),
        call_ensures(RenderCache::start_job, (later, &again), later_hit),
        call_ensures(cache_key, (&job.req,), key),
        call_ensures(cache_key, (&again.req,), key_again),
        key@ != key_again@,
        old(cache).entries().len() < 64 || old(cache).entries()[63].0 != key_again@,
    ensures
        hit is Some <==> later_hit is Some,
        hit is Some ==> hit->0.output@ == later_hit->0.output@,
        hit is Some ==> final(before).entries().len() > 0 && final(before).entries()[0] == (key_again@, hit->0.output@),
{
    let entries = old(cache).entries();
    old(cache).law_valid();
    if output.ok {
        law_store_keeps(entries, key@, output@, key_again@);
    }
}

} // verus!
