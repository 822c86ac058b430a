//! The hot-chunk cache: a bounded least-recently-used map from a
//! `(start, count)` request to its decoded rows.

use vstd::prelude::*;

use crate::reader::rows_text_view;

verus! {

#[verifier::external_type_specification]
#[verifier::external_body]
#[verifier::reject_recursive_types(K)]
#[verifier::reject_recursive_types(V)]
#[verifier::reject_recursive_types(S)]
pub struct ExLruCache<K, V, S>(lru::LruCache<K, V, S>);

#[verifier::external_type_specification]
#[verifier::external_body]
pub struct ExLruDefaultHasher(lru::DefaultHasher);

/// What the cache currently maps: each live `(start, count)` request to the
/// text of its cached rows.
pub uninterp spec fn lru_contents(c: lru::LruCache<(u64, u64), Vec<Vec<String>>>) -> Map<
    (u64, u64),
    Seq<Seq<Seq<char>>>,
>;

/// The bound the cache was created with.
pub uninterp spec fn lru_cap(c: lru::LruCache<(u64, u64), Vec<Vec<String>>>) -> nat;

/// The empty cache mapping.
pub open spec fn empty_cache_map() -> Map<(u64, u64), Seq<Seq<Seq<char>>>> {
    Map::empty()
}

/// Bounded LRU cache of decoded row chunks, keyed by `(start, count)`.
pub struct CsvCache {
    pub inner: lru::LruCache<(u64, u64), Vec<Vec<String>>>,
}

impl CsvCache {
    /// The live entries.
    pub open spec fn contents(&self) -> Map<(u64, u64), Seq<Seq<Seq<char>>>> {
        lru_contents(self.inner)
    }

    /// The bound.
    pub open spec fn cap(&self) -> nat {
        lru_cap(self.inner)
    }

    /// Relies on `lru::LruCache::new`: a fresh cache is empty and holds at
    /// most the given number of entries (at least one).
    #[verifier::external_body]
    pub fn new(capacity: usize) -> (r: Self)
        ensures
            lru_contents(r.inner) == empty_cache_map(),
            lru_contents(r.inner).dom().finite(),
            lru_cap(r.inner) == (if capacity == 0 {
                1nat
            } else {
                capacity as nat
            }),
    {
        let size = core::num::NonZeroUsize::new(capacity).unwrap_or(
            core::num::NonZeroUsize::new(1).unwrap(),
        );
        CsvCache { inner: lru::LruCache::new(size) }
    }

    /// Relies on `lru::LruCache::get`: returns the entry exactly when the
    /// key is live, only touching recency; the mapping is unchanged.
    #[verifier::external_body]
    pub fn get(&mut self, start: u64, count: u64) -> (r: Option<Vec<Vec<String>>>)
        ensures
            lru_contents(final(self).inner) == lru_contents(old(self).inner),
            lru_cap(final(self).inner) == lru_cap(old(self).inner),
            r is Some <==> lru_contents(old(self).inner).contains_key((start, count)),
            r matches Option::Some(v) ==> rows_text_view(v) == lru_contents(old(self).inner)[
                (start, count)
            ],
    {
        self.inner.get(&(start, count)).cloned()
    }

    /// Relies on `lru::LruCache::put`: installs the entry, evicting the
    /// least recently used other entry when the cache is full, so the entry
    /// count never exceeds the bound; every surviving entry keeps its value.
    #[verifier::external_body]
    pub fn put(&mut self, start: u64, count: u64, rows: Vec<Vec<String>>)
        ensures
            lru_cap(final(self).inner) == lru_cap(old(self).inner),
            lru_contents(final(self).inner).dom().finite(),
            lru_contents(final(self).inner).len() <= lru_cap(final(self).inner),
            lru_contents(final(self).inner).contains_key((start, count)),
            lru_contents(final(self).inner)[(start, count)] == rows_text_view(rows),
            forall|k: (u64, u64)|
                k != (start, count) && #[trigger] lru_contents(final(self).inner).contains_key(k)
                    ==> lru_contents(old(self).inner).contains_key(k) && lru_contents(
                    final(self).inner,
                )[k] == lru_contents(old(self).inner)[k],
    {
        self.inner.put((start, count), rows);
    }

    /// Relies on `lru::LruCache::clear`: drops every entry.
    #[verifier::external_body]
    pub fn clear(&mut self)
        ensures
            lru_cap(final(self).inner) == lru_cap(old(self).inner),
            lru_contents(final(self).inner) == empty_cache_map(),
            lru_contents(final(self).inner).dom().finite(),
    {
        self.inner.clear();
    }
}

} // verus!
