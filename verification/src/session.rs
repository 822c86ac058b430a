//! Session state: everything bound to one open file — the effective
//! dialect, the headers, the offset array, the sort permutation, the
//! bounded warning list and the hot-chunk cache. The ghost data model pins
//! the file bytes every cached or derived value was computed from.

use vstd::prelude::*;

use crate::cache::CsvCache;
use crate::dialect::{MalformedMode, ParseSettings};
use crate::offsets::warnings_grown;
use crate::policy::{push_warning, CsvError, ParseWarning};
use crate::reader::{
    offsets_wf, read_chunk_with_offsets, read_rows_by_index, rows_text_view, spec_index_ok,
    spec_row_at_index, spec_rows_at,
};
use crate::MAX_WARNING_COUNT;

verus! {

/// Number of chunks the hot cache keeps.
pub const CACHE_CAPACITY: usize = 64;

pub struct Session {
    pub settings: ParseSettings,
    pub headers: Vec<String>,
    pub row_offsets: Option<Vec<u64>>,
    pub total_rows: usize,
    pub sorted_order: Option<Vec<usize>>,
    pub warnings: Vec<ParseWarning>,
    pub cache: CsvCache,
    pub enable_indexing: bool,
    pub search_index: Option<crate::colindex::SearchIndex>,
    pub index_rows: Ghost<Seq<Seq<Seq<char>>>>,
    pub data_model: Ghost<Seq<u8>>,
}

impl Session {
    /// The column count reads are validated against.
    pub open spec fn spec_expected(&self) -> Option<usize> {
        if self.headers@.len() == 0 {
            Option::None
        } else {
            Option::Some(self.headers@.len() as usize)
        }
    }

    /// Session invariant: the warning list is bounded, the offset array is
    /// well-formed over the data model with the row count derived from it,
    /// the sort permutation ranges over the rows, and every cached chunk is
    /// exactly what reading that range returns.
    pub open spec fn wf(&self) -> bool {
        &&& self.warnings@.len() <= MAX_WARNING_COUNT
        &&& match self.row_offsets {
            Option::Some(o) => offsets_wf(self.data_model@, o@, self.settings) && self.total_rows
                == o@.len(),
            Option::None => self.total_rows == 0,
        }
        &&& match self.sorted_order {
            Option::Some(p) => p@.len() == self.total_rows && (forall|k: int|
                0 <= k < p@.len() ==> (#[trigger] p@[k]) < self.total_rows),
            Option::None => true,
        }
        &&& (self.row_offsets is None ==> self.cache.contents()
            == crate::cache::empty_cache_map())
        &&& match self.search_index {
            Option::Some(ix) => ix.wf(self.index_rows@),
            Option::None => true,
        }
        &&& match self.row_offsets {
            Option::Some(o) => forall|k: (u64, u64)|
                #[trigger] self.cache.contents().contains_key(k) ==> self.cache.contents()[k]
                    == spec_rows_at(
                    self.data_model@,
                    o@,
                    k.0 as int,
                    (if k.0 + k.1 <= o@.len() {
                        k.0 + k.1
                    } else {
                        o@.len() as int
                    }),
                    self.settings,
                    self.spec_expected(),
                ),
            Option::None => true,
        }
    }

    /// A fresh session for one opened file.
    pub fn new(settings: ParseSettings, headers: Vec<String>, Ghost(data): Ghost<Seq<u8>>) -> (r:
        Session)
        ensures
            r.wf(),
            r.settings == settings,
            r.headers == headers,
            r.row_offsets is None,
            r.total_rows == 0,
            r.sorted_order is None,
            r.warnings@.len() == 0,
            r.enable_indexing == true,
            r.search_index is None,
            r.data_model@ == data,
    {
        Session {
            settings,
            headers,
            row_offsets: None,
            total_rows: 0,
            sorted_order: None,
            warnings: Vec::new(),
            cache: CsvCache::new(CACHE_CAPACITY),
            enable_indexing: true,
            search_index: None,
            index_rows: Ghost(Seq::empty()),
            data_model: Ghost(data),
        }
    }

    /// A fresh session bound to the given file bytes.
    pub fn for_data(settings: ParseSettings, headers: Vec<String>, data: &[u8]) -> (r: Session)
        ensures
            r.wf(),
            r.settings == settings,
            r.headers == headers,
            r.row_offsets is None,
            r.total_rows == 0,
            r.sorted_order is None,
            r.warnings@.len() == 0,
            r.enable_indexing == true,
            r.data_model@ == data@,
    {
        Session::new(settings, headers, Ghost(data@))
    }

    /// Install the freshly built offset array: the row count becomes its
    /// length and the hot cache starts over.
    pub fn install_offsets(&mut self, offsets: Vec<u64>)
        requires
            old(self).wf(),
            offsets_wf(old(self).data_model@, offsets@, old(self).settings),
        ensures
            final(self).wf(),
            final(self).row_offsets matches Option::Some(o) && o@ == offsets@,
            final(self).search_index is None,
            final(self).total_rows == offsets@.len(),
            final(self).settings == old(self).settings,
            final(self).headers == old(self).headers,
            final(self).data_model == old(self).data_model,
            final(self).sorted_order is None,
            final(self).warnings == old(self).warnings,
    {
        let n = offsets.len();
        self.row_offsets = Some(offsets);
        self.total_rows = n;
        self.sorted_order = None;
        self.search_index = None;
        self.cache.clear();
        proof {
            assert forall|k: (u64, u64)| !(#[trigger] self.cache.contents().contains_key(k)) by {
                assert(self.cache.contents() == crate::cache::empty_cache_map());
            }
        }
    }

    /// The number of user-visible rows (0 until the index is ready).
    pub fn row_count(&self) -> (r: usize)
        ensures
            r == self.total_rows,
    {
        self.total_rows
    }

    /// Install a sort permutation over all rows.
    pub fn install_sort(&mut self, order: Vec<usize>)
        requires
            old(self).wf(),
            order@.len() == old(self).total_rows,
            forall|k: int| 0 <= k < order@.len() ==> (#[trigger] order@[k]) < old(self).total_rows,
        ensures
            final(self).wf(),
            final(self).sorted_order matches Option::Some(p) && p@ == order@,
            final(self).settings == old(self).settings,
            final(self).headers == old(self).headers,
            final(self).row_offsets == old(self).row_offsets,
            final(self).total_rows == old(self).total_rows,
            final(self).data_model == old(self).data_model,
            final(self).warnings == old(self).warnings,
    {
        self.sorted_order = Some(order);
    }

    /// Drop the sort permutation.
    pub fn clear_sort(&mut self)
        requires
            old(self).wf(),
        ensures
            final(self).wf(),
            final(self).sorted_order is None,
            final(self).settings == old(self).settings,
            final(self).headers == old(self).headers,
            final(self).row_offsets == old(self).row_offsets,
            final(self).total_rows == old(self).total_rows,
            final(self).data_model == old(self).data_model,
            final(self).warnings == old(self).warnings,
            final(self).cache == old(self).cache,
            final(self).search_index == old(self).search_index,
            final(self).index_rows == old(self).index_rows,
            final(self).enable_indexing == old(self).enable_indexing,
    {
        self.sorted_order = None;
    }

    /// Toggle background indexing.
    pub fn set_enable_indexing(&mut self, enabled: bool)
        requires
            old(self).wf(),
        ensures
            final(self).wf(),
            final(self).enable_indexing == enabled,
            !enabled ==> final(self).search_index is None,
            final(self).settings == old(self).settings,
            final(self).row_offsets == old(self).row_offsets,
            final(self).data_model == old(self).data_model,
    {
        self.enable_indexing = enabled;
        if !enabled {
            self.search_index = None;
        }
    }

    /// Install a freshly built search index over the loaded rows.
    pub fn install_index(
        &mut self,
        ix: crate::colindex::SearchIndex,
        Ghost(rows): Ghost<Seq<Seq<Seq<char>>>>,
    )
        requires
            old(self).wf(),
            ix.wf(rows),
        ensures
            final(self).wf(),
            final(self).search_index matches Option::Some(stored) && stored == ix,
            final(self).index_rows@ == rows,
            final(self).settings == old(self).settings,
            final(self).headers == old(self).headers,
            final(self).row_offsets == old(self).row_offsets,
            final(self).total_rows == old(self).total_rows,
            final(self).sorted_order == old(self).sorted_order,
            final(self).data_model == old(self).data_model,
            final(self).warnings == old(self).warnings,
    {
        self.search_index = Some(ix);
        self.index_rows = Ghost(rows);
    }

    /// Append warnings produced by a background pass, keeping the bound.
    pub fn absorb_warnings(&mut self, fresh: Vec<ParseWarning>)
        requires
            old(self).wf(),
        ensures
            final(self).wf(),
            warnings_grown(old(self).warnings@, final(self).warnings@),
            final(self).settings == old(self).settings,
            final(self).headers == old(self).headers,
            final(self).row_offsets == old(self).row_offsets,
            final(self).total_rows == old(self).total_rows,
            final(self).sorted_order == old(self).sorted_order,
            final(self).data_model == old(self).data_model,
            final(self).cache == old(self).cache,
    {
        let mut fresh = fresh;
        let mut i: usize = 0;
        let n = fresh.len();
        while i < n
            invariant
                0 <= i <= n,
                old(self).wf(),
                warnings_grown(old(self).warnings@, self.warnings@),
                self.settings == old(self).settings,
                self.headers == old(self).headers,
                self.row_offsets == old(self).row_offsets,
                self.total_rows == old(self).total_rows,
                self.sorted_order == old(self).sorted_order,
                self.data_model == old(self).data_model,
                self.cache == old(self).cache,
                self.search_index == old(self).search_index,
                self.index_rows == old(self).index_rows,
                self.enable_indexing == old(self).enable_indexing,
                self.warnings@.len() <= MAX_WARNING_COUNT || self.warnings@ == old(
                    self,
                ).warnings@,
            decreases n - i,
        {
            if self.warnings.len() >= MAX_WARNING_COUNT {
                return ;
            }
            let w = fresh.pop();
            match w {
                Some(w) => {
                    push_warning(&mut self.warnings, w);
                },
                None => {},
            }
            i = i + 1;
        }
    }

    /// The stored warnings, optionally clearing them.
    pub fn get_parse_warnings(&mut self, clear: bool) -> (r: Vec<ParseWarning>)
        requires
            old(self).wf(),
        ensures
            final(self).wf(),
            r@ == old(self).warnings@,
            clear ==> final(self).warnings@.len() == 0,
            !clear ==> final(self).warnings@ == old(self).warnings@,
            final(self).settings == old(self).settings,
            final(self).headers == old(self).headers,
            final(self).row_offsets == old(self).row_offsets,
            final(self).total_rows == old(self).total_rows,
            final(self).sorted_order == old(self).sorted_order,
            final(self).data_model == old(self).data_model,
            final(self).cache == old(self).cache,
    {
        let mut out: Vec<ParseWarning> = Vec::new();
        let mut i: usize = 0;
        while i < self.warnings.len()
            invariant
                0 <= i <= self.warnings@.len(),
                out@ == self.warnings@.take(i as int),
                *self == *old(self),
            decreases self.warnings@.len() - i,
        {
            let w = clone_warning(&self.warnings[i]);
            out.push(w);
            i = i + 1;
            assert(out@ =~= self.warnings@.take(i as int));
        }
        assert(out@ =~= self.warnings@);
        if clear {
            self.warnings = Vec::new();
        }
        out
    }

    /// A slice of the sort permutation, or the no-sort error.
    pub fn get_sorted_indices(&self, start: usize, count: usize) -> (r: Result<
        Vec<usize>,
        CsvError,
    >)
        requires
            self.wf(),
        ensures
            self.sorted_order is None <==> r == Result::<Vec<usize>, CsvError>::Err(
                CsvError::NoSort,
            ),
            self.sorted_order is Some <==> r is Ok,
            r matches Result::Ok(v) ==> ({
                let p = self.sorted_order->0@;
                let end = if start + count <= p.len() {
                    start + count
                } else {
                    p.len() as int
                };
                v@ == (if start <= p.len() {
                    p.subrange(start as int, end)
                } else {
                    Seq::<usize>::empty()
                })
            }),
    {
        match &self.sorted_order {
            None => Err(CsvError::NoSort),
            Some(order) => {
                let mut out: Vec<usize> = Vec::new();
                if start >= order.len() {
                    assert(out@ =~= Seq::<usize>::empty());
                    return Ok(out);
                }
                let end = if count <= order.len() - start {
                    start + count
                } else {
                    order.len()
                };
                let mut i = start;
                while i < end
                    invariant
                        start <= i <= end <= order@.len(),
                        out@ == order@.subrange(start as int, i as int),
                    decreases end - i,
                {
                    out.push(order[i]);
                    i = i + 1;
                    assert(out@ =~= order@.subrange(start as int, i as int));
                }
                Ok(out)
            },
        }
    }

    /// Read a row range, serving from the hot cache when possible; a miss
    /// reads through the offset array and caches the decoded rows.
    pub fn read_chunk_cached(&mut self, data: &[u8], start: usize, count: usize) -> (r: Result<
        Vec<Vec<String>>,
        CsvError,
    >)
        requires
            old(self).wf(),
            data@ == old(self).data_model@,
            old(self).row_offsets is Some,
        ensures
            final(self).wf(),
            final(self).settings == old(self).settings,
            final(self).headers == old(self).headers,
            final(self).row_offsets == old(self).row_offsets,
            final(self).total_rows == old(self).total_rows,
            final(self).sorted_order == old(self).sorted_order,
            final(self).data_model == old(self).data_model,
            warnings_grown(old(self).warnings@, final(self).warnings@),
            r matches Result::Ok(rows) ==> ({
                let o = old(self).row_offsets->0@;
                let end = if start + count <= o.len() {
                    start + count
                } else {
                    o.len() as int
                };
                rows_text_view(rows) == spec_rows_at(
                    data@,
                    o,
                    start as int,
                    end,
                    old(self).settings,
                    old(self).spec_expected(),
                )
            }),
            r is Ok ==> final(self).cache.contents().contains_key(
                (start as u64, count as u64),
            ),
            r is Err ==> old(self).settings.malformed == MalformedMode::Strict,
    {
        let key_start = start as u64;
        let key_count = count as u64;
        let ghost o = self.row_offsets->0@;
        let ghost end = if start + count <= o.len() {
            start + count as int
        } else {
            o.len() as int
        };
        match self.cache.get(key_start, key_count) {
            Some(rows) => {
                proof {
                    assert(self.cache.contents() == old(self).cache.contents());
                    assert(old(self).cache.contents().contains_key((key_start, key_count)));
                    assert(key_start as int == start as int && key_count as int == count as int);
                    assert(end == (if key_start + key_count <= o.len() {
                        key_start + key_count
                    } else {
                        o.len() as int
                    }));
                    assert(rows_text_view(rows) == old(self).cache.contents()[
                        (key_start, key_count)
                    ]);
                    assert(self.wf());
                }
                return Ok(rows);
            },
            None => {},
        }
        proof {
            assert(self.cache.contents() == old(self).cache.contents());
            assert(self.wf());
        }
        let expected: Option<usize> = if self.headers.len() == 0 {
            None
        } else {
            Some(self.headers.len())
        };
        let mut scratch: Vec<ParseWarning> = Vec::new();
        let rows = {
            let offs = match &self.row_offsets {
                Some(o) => o,
                None => {
                    proof {
                        assert(false);
                    }
                    return Err(CsvError::NotIndexed);
                },
            };
            match read_chunk_with_offsets(
                data,
                offs,
                start,
                count,
                &self.settings,
                expected,
                &mut scratch,
            ) {
                Ok(rows) => rows,
                Err(err) => {
                    proof {
                        if self.settings.malformed != MalformedMode::Strict {
                            crate::reader::lemma_read_ok_nonstrict(
                                data@,
                                o,
                                start as int,
                                end,
                                self.settings,
                                self.spec_expected(),
                            );
                        }
                    }
                    self.absorb_warnings(scratch);
                    return Err(err);
                },
            }
        };
        self.absorb_warnings(scratch);
        let ghost pre_put = self.cache.contents();
        proof {
            assert(self.wf());
        }
        self.cache.put(key_start, key_count, rows);
        proof {
            let sv = self.settings;
            let dm = self.data_model@;
            let ex = self.spec_expected();
            assert forall|k: (u64, u64)|
                #[trigger] self.cache.contents().contains_key(k) implies self.cache.contents()[k]
                == spec_rows_at(
                dm,
                o,
                k.0 as int,
                (if k.0 + k.1 <= o.len() {
                    k.0 + k.1
                } else {
                    o.len() as int
                }),
                sv,
                ex,
            ) by {
                if k == (key_start, key_count) {
                    assert(end == (if k.0 + k.1 <= o.len() {
                        k.0 + k.1
                    } else {
                        o.len() as int
                    }));
                } else {
                    assert(pre_put.contains_key(k));
                }
            }
            assert(self.wf());
        }
        match self.cache.get(key_start, key_count) {
            Some(rows) => Ok(rows),
            None => {
                proof {
                    assert(false);
                }
                Err(CsvError::NotIndexed)
            },
        }
    }
}

impl Session {
    /// Install a search index built over the given rows.
    pub fn install_index_for(
        &mut self,
        ix: crate::colindex::SearchIndex,
        rows: &Vec<Vec<String>>,
    )
        requires
            old(self).wf(),
            ix.wf(crate::reader::rows_text_view(*rows)),
        ensures
            final(self).wf(),
            final(self).search_index matches Option::Some(stored) && stored == ix,
            final(self).index_rows@ == crate::reader::rows_text_view(*rows),
            final(self).settings == old(self).settings,
            final(self).headers == old(self).headers,
            final(self).row_offsets == old(self).row_offsets,
            final(self).total_rows == old(self).total_rows,
            final(self).sorted_order == old(self).sorted_order,
            final(self).data_model == old(self).data_model,
            final(self).warnings == old(self).warnings,
    {
        let ghost rv = crate::reader::rows_text_view(*rows);
        self.install_index(ix, Ghost(rv));
    }

    /// One page of the sorted view: `(row id, row)` pairs in permutation
    /// order, the rows read by index through the offset array.
    pub fn get_sorted_chunk(&mut self, data: &[u8], start: usize, count: usize) -> (r: Result<
        Vec<(usize, Vec<String>)>,
        CsvError,
    >)
        requires
            old(self).wf(),
            data@ == old(self).data_model@,
        ensures
            final(self).wf(),
            final(self).settings == old(self).settings,
            final(self).headers == old(self).headers,
            final(self).row_offsets == old(self).row_offsets,
            final(self).total_rows == old(self).total_rows,
            final(self).sorted_order == old(self).sorted_order,
            final(self).data_model == old(self).data_model,
            warnings_grown(old(self).warnings@, final(self).warnings@),
            old(self).sorted_order is None ==> r == Result::<
                Vec<(usize, Vec<String>)>,
                CsvError,
            >::Err(CsvError::NoSort),
            old(self).sorted_order is Some && old(self).row_offsets is None ==> r == Result::<
                Vec<(usize, Vec<String>)>,
                CsvError,
            >::Err(CsvError::RowIndexNotReady),
            (r is Ok <==> old(self).sorted_order is Some && old(self).row_offsets is Some && ({
                let p = old(self).sorted_order->0@;
                let o = old(self).row_offsets->0@;
                let end = if start + count <= p.len() {
                    start + count
                } else {
                    p.len() as int
                };
                forall|k: int|
                    start <= k < end ==> spec_index_ok(
                        data@,
                        o,
                        #[trigger] p[k] as int,
                        old(self).settings,
                        old(self).spec_expected(),
                    )
            })),
            r matches Result::Ok(pairs) ==> ({
                let p = old(self).sorted_order->0@;
                let o = old(self).row_offsets->0@;
                let end = if start + count <= p.len() {
                    start + count
                } else {
                    p.len() as int
                };
                &&& pairs@.len() == (if start <= p.len() {
                    end - start
                } else {
                    0int
                })
                &&& forall|k: int|
                    0 <= k < pairs@.len() ==> (#[trigger] pairs@[k]).0 == p[start + k]
                        && crate::reader::row_text_view(pairs@[k].1) == spec_row_at_index(
                        data@,
                        o,
                        p[start + k] as int,
                        old(self).settings,
                        old(self).spec_expected(),
                    )
            }),
    {
        let slice = match self.get_sorted_indices(start, count) {
            Ok(slice) => slice,
            Err(err) => {
                return Err(err);
            },
        };
        let offs_missing = match &self.row_offsets {
            Some(_) => false,
            None => true,
        };
        if offs_missing {
            return Err(CsvError::RowIndexNotReady);
        }
        let expected: Option<usize> = if self.headers.len() == 0 {
            None
        } else {
            Some(self.headers.len())
        };
        let mut scratch: Vec<ParseWarning> = Vec::new();
        let read = {
            let offs = match &self.row_offsets {
                Some(o) => o,
                None => {
                    proof {
                        assert(false);
                    }
                    return Err(CsvError::RowIndexNotReady);
                },
            };
            read_rows_by_index(data, offs, &slice, &self.settings, expected, &mut scratch)
        };
        let rows = match read {
            Ok(rows) => rows,
            Err(err) => {
                proof {
                    let p = old(self).sorted_order->0@;
                    let o = old(self).row_offsets->0@;
                    let w = choose|k: int|
                        !(0 <= k < slice@.len() ==> spec_index_ok(
                            data@,
                            o,
                            #[trigger] slice@[k] as int,
                            self.settings,
                            self.spec_expected(),
                        ));
                    if start <= p.len() {
                        let end = if start + count <= p.len() {
                            start + count as int
                        } else {
                            p.len() as int
                        };
                        assert(slice@[w] == p[start + w]);
                        assert(!spec_index_ok(
                            data@,
                            o,
                            p[start + w] as int,
                            old(self).settings,
                            old(self).spec_expected(),
                        ));
                    } else {
                        assert(slice@.len() == 0);
                    }
                }
                self.absorb_warnings(scratch);
                return Err(err);
            },
        };
        self.absorb_warnings(scratch);
        proof {
            let p = old(self).sorted_order->0@;
            let o = old(self).row_offsets->0@;
            let end = if start + count <= p.len() {
                start + count as int
            } else {
                p.len() as int
            };
            assert forall|k: int| start <= k < end implies spec_index_ok(
                data@,
                o,
                #[trigger] p[k] as int,
                old(self).settings,
                old(self).spec_expected(),
            ) by {
                assert(start <= p.len());
                assert(slice@[k - start] == p[k]);
                assert(spec_index_ok(
                    data@,
                    o,
                    slice@[k - start] as int,
                    old(self).settings,
                    old(self).spec_expected(),
                ));
            }
        }
        let mut out: Vec<(usize, Vec<String>)> = Vec::new();
        let mut rows = rows;
        let mut k: usize = 0;
        let n = slice.len();
        let ghost rv = crate::reader::rows_text_view(rows);
        while k < n
            invariant
                0 <= k <= n,
                n == slice@.len(),
                rows@.len() == n,
                rv == crate::reader::rows_text_view(rows),
                out@.len() == k,
                forall|j: int|
                    0 <= j < k ==> (#[trigger] out@[j]).0 == slice@[j]
                        && crate::reader::row_text_view(out@[j].1) == rv[j],
            decreases n - k,
        {
            let row = copy_row(&rows[k]);
            proof {
                assert(crate::reader::row_text_view(rows@[k as int]) == rv[k as int]);
            }
            out.push((slice[k], row));
            k = k + 1;
        }
        Ok(out)
    }

    /// The streaming scanner's decisions: the full scan's matches cut into
    /// bounded chunks, plus the total to advertise on completion.
    pub fn search_stream_chunks(
        &self,
        data: &[u8],
        col: Option<usize>,
        query: &str,
        match_case: bool,
        whole_word: bool,
    ) -> (r: Result<(Vec<Vec<usize>>, usize), CsvError>)
        requires
            self.wf(),
            data@ == self.data_model@,
        ensures
            (self.row_offsets is None <==> r == Result::<
                (Vec<Vec<usize>>, usize),
                CsvError,
            >::Err(CsvError::NotIndexed)),
            r is Ok <==> self.row_offsets is Some,
            r matches Result::Ok(out) ==> ({
                let o = self.row_offsets->0@;
                let m = crate::search::spec_matches_in_range(
                    data@,
                    o,
                    0,
                    o.len() as int,
                    self.settings,
                    col,
                    (if match_case {
                        query@
                    } else {
                        crate::text::lower_of(query@)
                    }),
                    match_case,
                    whole_word,
                );
                &&& out.1 == m.len()
                &&& Seq::new(out.0@.len(), |i: int| out.0@[i]@)
                    == crate::search::spec_chunks(
                    Seq::new(m.len(), |i: int| m[i] as usize),
                    crate::search::RESULT_CHUNK_SIZE as int,
                )
            }),
    {
        let offs = match &self.row_offsets {
            Some(o) => o,
            None => {
                return Err(CsvError::NotIndexed);
            },
        };
        let matches = crate::search::search_with_offsets(
            data,
            offs,
            col,
            query,
            match_case,
            whole_word,
            &self.settings,
        );
        let total = matches.len();
        let chunks = crate::search::chunk_matches(&matches, crate::search::RESULT_CHUNK_SIZE);
        proof {
            let m = matches@.map_values(|x: usize| x as int);
            assert(matches@ =~= Seq::new(m.len(), |i: int| m[i] as usize));
        }
        Ok((chunks, total))
    }

    /// Find the duplicate rows; fails until the offset array is built.
    pub fn find_duplicates(&self, data: &[u8], col: Option<usize>) -> (r: Result<
        Vec<usize>,
        CsvError,
    >)
        requires
            self.wf(),
            data@ == self.data_model@,
            self.total_rows <= u32::MAX,
        ensures
            (self.row_offsets is None <==> r == Result::<Vec<usize>, CsvError>::Err(
                CsvError::NotIndexed,
            )),
            r is Ok <==> self.row_offsets is Some,
            r matches Result::Ok(d) ==> ({
                let o = self.row_offsets->0@;
                &&& (forall|i: int, j: int| 0 <= i < j < d@.len() ==> d@[i] < d@[j])
                &&& (forall|t: usize|
                    #[trigger] d@.contains(t) <==> crate::dups::spec_is_dup(
                        data@,
                        o,
                        self.settings,
                        col,
                        t as int,
                    ))
            }),
    {
        match &self.row_offsets {
            None => Err(CsvError::NotIndexed),
            Some(offs) => Ok(crate::dups::find_duplicates(data, offs, &self.settings, col)),
        }
    }
}

/// A copy of a decoded row.
pub fn copy_row(row: &Vec<String>) -> (r: Vec<String>)
    ensures
        crate::reader::row_text_view(r) == crate::reader::row_text_view(*row),
        r@.len() == row@.len(),
{
    let mut out: Vec<String> = Vec::new();
    let mut i: usize = 0;
    while i < row.len()
        invariant
            0 <= i <= row@.len(),
            out@.len() == i,
            forall|k: int| 0 <= k < i ==> (#[trigger] out@[k])@ == row@[k]@,
        decreases row@.len() - i,
    {
        let cell = row[i].clone();
        assert(cell@ == row@[i as int]@);
        out.push(cell);
        i = i + 1;
    }
    proof {
        assert(crate::reader::row_text_view(out) =~= crate::reader::row_text_view(*row));
    }
    out
}

/// A field-for-field copy of a warning.
pub fn clone_warning(w: &ParseWarning) -> (r: ParseWarning)
    ensures
        r == *w,
{
    ParseWarning {
        record: w.record,
        line: w.line,
        byte: w.byte,
        field: w.field,
        kind: w.kind,
        message: w.message.clone(),
        expected_len: w.expected_len,
        len: w.len,
    }
}

} // verus!
