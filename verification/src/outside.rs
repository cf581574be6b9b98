//! Trusted declarations for the outside crates this library calls.
//!
//! Every function here is believed, not verified: its body makes the outside
//! call and its contract states only what that crate's source or
//! documentation shows. Each doc comment names the function relied on.

use vstd::prelude::*;
use std::collections::hash_map::RandomState;
use crate::image_types::ImageOutput;
use crate::image_types::ImageOutputView;
use crate::memcache::has_key;
use crate::memcache::key_index;
use crate::memcache::remove_key;

verus! {

/// The BLAKE3 digest of a byte string; a function of the bytes alone.
pub uninterp spec fn blake3_of(data: Seq<u8>) -> Seq<u8>;

/// Relies on `blake3::hash`: a 32-byte digest that depends on the input
/// bytes alone.
#[verifier::external_body]
pub(crate) fn blake3_digest(data: &[u8]) -> (r: Vec<u8>)
    ensures
        r@ == blake3_of(data@),
        r@.len() == 32,
{
    blake3::hash(data).as_bytes().to_vec()
}

/// The HMAC-SHA-256 tag of a message under a key; a function of the two
/// byte strings alone.
pub uninterp spec fn hmac_sha256_of(key: Seq<u8>, msg: Seq<u8>) -> Seq<u8>;

/// Relies on `hmac::Hmac<sha2::Sha256>` (`new_from_slice`, `update`,
/// `finalize`): the 32-byte tag of the message under the key;
/// `new_from_slice` accepts a key of any length for HMAC.
#[verifier::external_body]
pub(crate) fn hmac_sha256_tag(key: &[u8], msg: &[u8]) -> (r: Vec<u8>)
    ensures
        r@ == hmac_sha256_of(key@, msg@),
        r@.len() == 32,
{
    let mut mac = <hmac::Hmac<sha2::Sha256> as hmac::KeyInit>::new_from_slice(key).unwrap();
    hmac::Mac::update(&mut mac, msg);
    hmac::Mac::finalize(mac).into_bytes().to_vec()
}

/// Relies on `memchr::memmem::find`: the index of the first occurrence of
/// `needle` in `hay`, or `None` when it does not occur.
#[verifier::external_body]
pub(crate) fn find_subslice(hay: &[u8], needle: &[u8]) -> (r: Option<usize>)
    ensures
        match r {
            Some(i) => {
                &&& i + needle@.len() <= hay@.len()
                &&& hay@.subrange(i as int, i + needle@.len()) == needle@
                &&& forall|j: int|
                    0 <= j < i ==> #[trigger] hay@.subrange(j, j + needle@.len()) != needle@
            },
            None => forall|j: int|
                0 <= j && j + needle@.len() <= hay@.len() ==> #[trigger] hay@.subrange(
                    j,
                    j + needle@.len(),
                ) != needle@,
        },
{
    memchr::memmem::find(hay, needle)
}

/// Relies on `String::from_utf8`: bytes below 0x80 decode to the string of
/// exactly those characters.
#[verifier::external_body]
pub(crate) fn ascii_to_string(bytes: Vec<u8>) -> (r: String)
    requires
        forall|i: int| 0 <= i < bytes@.len() ==> bytes@[i] < 128,
    ensures
        r@.len() == bytes@.len(),
        forall|i: int| 0 <= i < bytes@.len() ==> r@[i] == bytes@[i] as char,
{
    String::from_utf8(bytes).unwrap()
}

/// The LRU list of an unbounded `lru::LruCache`, keyed by canonical
/// fingerprint bytes: pairs of key and stored output, most recent first.
#[verifier::external_type_specification]
#[verifier::external_body]
#[verifier::reject_recursive_types(K)]
#[verifier::reject_recursive_types(V)]
#[verifier::reject_recursive_types(S)]
pub struct ExLruCache<K, V, S>(lru::LruCache<K, V, S>);

/// The recency list of the cache: pairs of key and value, most recently
/// used first.
pub uninterp spec fn lru_entries(c: lru::LruCache<Vec<u8>, ImageOutput, RandomState>) -> Seq<
    (Seq<u8>, ImageOutputView),
>;

/// Relies on `lru::LruCache::unbounded_with_hasher`: a cache with no
/// capacity bound and nothing in it.
#[verifier::external_body]
pub(crate) fn lru_new() -> (r: lru::LruCache<Vec<u8>, ImageOutput, RandomState>)
    ensures
        lru_entries(r) == Seq::<(Seq<u8>, ImageOutputView)>::empty(),
{
    lru::LruCache::unbounded_with_hasher(RandomState::new())
}

/// Relies on `lru::LruCache::get`: returns the value stored under the key
/// and moves that entry to the head of the LRU list; absent keys leave the
/// cache unchanged. `Vec<u8>` keys compare equal exactly when their bytes
/// are equal.
#[verifier::external_body]
pub(crate) fn lru_get(
    c: &mut lru::LruCache<Vec<u8>, ImageOutput, RandomState>,
    k: &Vec<u8>,
) -> (r: Option<ImageOutput>)
    ensures
        ({
            let e = lru_entries(*old(c));
            match r {
                Some(v) => {
                    &&& has_key(e, k@)
                    &&& v@ == e[key_index(e, k@)].1
                    &&& lru_entries(*final(c)) == seq![(k@, e[key_index(e, k@)].1)]
                        + remove_key(e, k@)
                },
                None => {
                    &&& !has_key(e, k@)
                    &&& lru_entries(*final(c)) == e
                },
            }
        }),
{
    c.get(k).cloned()
}

/// Relies on `lru::LruCache::put`: stores the value under the key at the
/// head of the LRU list, returning the value previously stored under that
/// key, if any; an unbounded cache never evicts on insert.
#[verifier::external_body]
pub(crate) fn lru_put(
    c: &mut lru::LruCache<Vec<u8>, ImageOutput, RandomState>,
    k: Vec<u8>,
    v: ImageOutput,
) -> (r: Option<ImageOutput>)
    ensures
        ({
            let e = lru_entries(*old(c));
            &&& lru_entries(*final(c)) == seq![(k@, v@)] + remove_key(e, k@)
            &&& match r {
                Some(o) => has_key(e, k@) && o@ == e[key_index(e, k@)].1,
                None => !has_key(e, k@),
            }
        }),
{
    c.put(k, v)
}

/// Relies on `lru::LruCache::pop_lru`: removes and returns the least
/// recently used entry; `None` only when the cache is empty.
#[verifier::external_body]
pub(crate) fn lru_pop_lru(
    c: &mut lru::LruCache<Vec<u8>, ImageOutput, RandomState>,
) -> (r: Option<(Vec<u8>, ImageOutput)>)
    ensures
        ({
            let e = lru_entries(*old(c));
            match r {
                Some(kv) => {
                    &&& e.len() > 0
                    &&& kv.0@ == e.last().0
                    &&& kv.1@ == e.last().1
                    &&& lru_entries(*final(c)) == e.drop_last()
                },
                None => {
                    &&& e.len() == 0
                    &&& lru_entries(*final(c)) == e
                },
            }
        }),
{
    c.pop_lru()
}

/// Relies on `lru::LruCache::len`: the number of stored entries.
#[verifier::external_body]
pub(crate) fn lru_len(c: &lru::LruCache<Vec<u8>, ImageOutput, RandomState>) -> (r: usize)
    ensures
        r == lru_entries(*c).len(),
{
    c.len()
}

} // verus!
