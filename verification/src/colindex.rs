//! The column inverted index: per column, a map from the cell value
//! (UTF-8-truncated to a byte budget at a code-point boundary, then
//! lowercased) to the ascending row ids holding it, capped in cardinality;
//! it accelerates case-insensitive whole-word column search.

use vstd::prelude::*;

use crate::policy::{lemma_trunc_valid, spec_trunc, truncate_field};
use crate::reader::rows_text_view;
use crate::search::spec_cell_matches;
use crate::text::{eq_bytes, lower_of, to_lowercase, utf8_str};

verus! {

/// Cells are keyed by at most this many bytes.
pub const INDEX_VALUE_MAX_LEN: usize = 256;

/// A column is dropped when it has more distinct keys than this.
pub const INDEX_MAX_CARDINALITY: usize = 2000000;

/// The index key of a cell: its UTF-8 bytes truncated to the byte budget
/// at a code-point boundary, then lowercased.
pub open spec fn spec_index_key(cell: Seq<char>) -> Seq<u8> {
    vstd::utf8::encode_utf8(
        lower_of(
            vstd::utf8::decode_utf8(
                spec_trunc(vstd::utf8::encode_utf8(cell), INDEX_VALUE_MAX_LEN),
            ),
        ),
    )
}

/// Compute a cell's index key.
pub fn index_key(cell: &str) -> (r: Vec<u8>)
    ensures
        r@ == spec_index_key(cell@),
{
    let bytes = cell.as_bytes_vec();
    let tb = truncate_field(&bytes, INDEX_VALUE_MAX_LEN);
    proof {
        vstd::utf8::encode_utf8_valid_utf8(cell@);
        lemma_trunc_valid(bytes@, INDEX_VALUE_MAX_LEN);
    }
    let ts: &str = match utf8_str(tb.as_slice()) {
        Some(s) => s,
        None => {
            proof {
                assert(false);
            }
            ""
        },
    };
    let low = to_lowercase(ts);
    low.as_str().as_bytes_vec()
}

/// `ids` names rows whose cells in column `col` have pairwise distinct
/// index keys.
pub open spec fn distinct_key_rows(rows: Seq<Seq<Seq<char>>>, col: int, ids: Seq<int>) -> bool {
    &&& forall|a: int|
        0 <= a < ids.len() ==> 0 <= #[trigger] ids[a] < rows.len() && col < rows[ids[a]].len()
    &&& forall|a: int, b: int|
        #![trigger ids[a], ids[b]]
        0 <= a < b < ids.len() ==> spec_index_key(rows[ids[a]][col]) != spec_index_key(
            rows[ids[b]][col],
        )
}

/// The column holds more distinct index keys than the cardinality cap.
pub open spec fn spec_cap_exceeded(rows: Seq<Seq<Seq<char>>>, col: int) -> bool {
    exists|ids: Seq<int>|
        #[trigger] distinct_key_rows(rows, col, ids) && ids.len() > INDEX_MAX_CARDINALITY
}

/// One column's inverted index: distinct keys, each with the ascending ids
/// of the rows whose cell has that key.
pub struct ColumnIndex {
    pub entries: Vec<(Vec<u8>, Vec<u32>)>,
}

/// The ghost value of the entries.
pub open spec fn entries_view(v: Vec<(Vec<u8>, Vec<u32>)>) -> Seq<(Seq<u8>, Seq<u32>)> {
    Seq::new(v@.len(), |k: int| (v@[k].0@, v@[k].1@))
}

impl ColumnIndex {
    /// The index is exactly the inverted image of column `col` over `rows`:
    /// keys are distinct, every id list is ascending, and an id is listed
    /// under a key exactly when that row's cell has that key.
    pub open spec fn complete(&self, rows: Seq<Seq<Seq<char>>>, col: int) -> bool {
        let es = entries_view(self.entries);
        &&& forall|a: int, b: int| 0 <= a < b < es.len() ==> (#[trigger] es[a]).0 != (
        #[trigger] es[b]).0
        &&& forall|e: int, x: int, y: int|
            #![trigger es[e].1[x], es[e].1[y]]
            0 <= e < es.len() && 0 <= x < y < es[e].1.len() ==> es[e].1[x] < es[e].1[y]
        &&& forall|e: int, x: int|
            #![trigger es[e].1[x]]
            0 <= e < es.len() && 0 <= x < es[e].1.len() ==> (es[e].1[x] as int) < rows.len()
                && col < rows[es[e].1[x] as int].len() && spec_index_key(
                rows[es[e].1[x] as int][col],
            ) == es[e].0
        &&& forall|id: int|
            0 <= id < rows.len() && col < (#[trigger] rows[id]).len() ==> exists|e: int, x: int|
                0 <= e < es.len() && 0 <= x < es[e].1.len() && #[trigger] es[e].1[x] == id as u32
    }
}

/// Find the entry holding a key.
fn find_entry(entries: &Vec<(Vec<u8>, Vec<u32>)>, key: &Vec<u8>) -> (r: Option<usize>)
    ensures
        match r {
            Option::Some(e) => e < entries@.len() && entries_view(*entries)[e as int].0 == key@,
            Option::None => forall|e: int|
                0 <= e < entries@.len() ==> (#[trigger] entries_view(*entries)[e]).0 != key@,
        },
{
    let ghost es = entries_view(*entries);
    let mut e: usize = 0;
    while e < entries.len()
        invariant
            0 <= e <= entries@.len(),
            es == entries_view(*entries),
            forall|k: int| 0 <= k < e ==> (#[trigger] es[k]).0 != key@,
        decreases entries@.len() - e,
    {
        if eq_bytes(entries[e].0.as_slice(), key.as_slice()) {
            assert(es[e as int].0 == entries@[e as int].0@);
            return Some(e);
        }
        assert(es[e as int].0 == entries@[e as int].0@);
        e = e + 1;
    }
    None
}

/// Build the inverted index of one column over the loaded rows, processing
/// the rows in ascending id order; gives up (the column is dropped) when
/// the distinct-key count passes the cardinality cap.
pub fn build_column_index(rows: &Vec<Vec<String>>, col: usize) -> (r: Option<ColumnIndex>)
    requires
        rows@.len() <= u32::MAX,
    ensures
        r matches Option::Some(ix) ==> ix.complete(rows_text_view(*rows), col as int),
        r matches Option::Some(ix) ==> entries_keys_unique(ix.entries),
        r is None ==> spec_cap_exceeded(rows_text_view(*rows), col as int),
{
    let ghost rv = rows_text_view(*rows);
    let mut entries: Vec<(Vec<u8>, Vec<u32>)> = Vec::new();
    let mut id: usize = 0;
    while id < rows.len()
        invariant
            0 <= id <= rows@.len(),
            rows@.len() <= u32::MAX,
            rv == rows_text_view(*rows),
            entries_view(entries).len() <= INDEX_MAX_CARDINALITY,
            ({
                let es = entries_view(entries);
                &&& forall|a: int, b: int| 0 <= a < b < es.len() ==> (#[trigger] es[a]).0 != (
                #[trigger] es[b]).0
                &&& forall|e: int, x: int, y: int|
                    #![trigger es[e].1[x], es[e].1[y]]
                    0 <= e < es.len() && 0 <= x < y < es[e].1.len() ==> es[e].1[x] < es[e].1[y]
                &&& forall|e: int, x: int|
                    #![trigger es[e].1[x]]
                    0 <= e < es.len() && 0 <= x < es[e].1.len() ==> (es[e].1[x] as int) < id
                        && col < rv[es[e].1[x] as int].len() && spec_index_key(
                        rv[es[e].1[x] as int][col as int],
                    ) == es[e].0
                &&& forall|rid: int|
                    0 <= rid < id && col < (#[trigger] rv[rid]).len() ==> exists|e: int, x: int|
                        0 <= e < es.len() && 0 <= x < es[e].1.len() && #[trigger] es[e].1[x]
                            == rid as u32
                &&& forall|e: int| 0 <= e < es.len() ==> (#[trigger] es[e]).1.len() >= 1
            }),
        decreases rows@.len() - id,
    {
        let row = &rows[id];
        if col < row.len() {
            let key = index_key(row[col].as_str());
            proof {
                assert(rv[id as int][col as int] == rows@[id as int]@[col as int]@);
            }
            let ghost pre = entries_view(entries);
            match find_entry(&entries, &key) {
                Some(e) => {
                    entries[e].1.push(id as u32);
                    proof {
                        let post = entries_view(entries);
                        assert forall|k: int| 0 <= k < post.len() implies #[trigger] post[k] == (
                        if k == e {
                            (pre[k].0, pre[k].1.push(id as u32))
                        } else {
                            pre[k]
                        }) by {
                            assert(post[k] == (entries@[k].0@, entries@[k].1@));
                        }
                        assert forall|ee: int, x: int, y: int|
                            #![trigger post[ee].1[x], post[ee].1[y]]
                            0 <= ee < post.len() && 0 <= x < y < post[ee].1.len() implies post[ee].1[x]
                            < post[ee].1[y] by {
                            if ee == e && y == post[ee].1.len() - 1 {
                                assert(pre[ee].1[x] < id as u32);
                            } else {
                                assert(pre[ee].1[x] == post[ee].1[x] && pre[ee].1[y] == post[ee].1[y]);
                            }
                        }
                        assert forall|ee: int, x: int|
                            #![trigger post[ee].1[x]]
                            0 <= ee < post.len() && 0 <= x < post[ee].1.len() implies (post[ee].1[x]
                            as int) < id + 1 && col < rv[post[ee].1[x] as int].len()
                            && spec_index_key(rv[post[ee].1[x] as int][col as int]) == post[ee].0 by {
                            if ee == e && x == post[ee].1.len() - 1 {
                                assert(post[ee].1[x] == id as u32);
                                assert(pre[e as int].0 == key@);
                            } else {
                                assert(pre[ee].1[x] == post[ee].1[x]);
                            }
                        }
                        assert forall|rid: int|
                            0 <= rid < id + 1 && col < (#[trigger] rv[rid]).len() implies exists|ee: int, x: int|
                                0 <= ee < post.len() && 0 <= x < post[ee].1.len() && #[trigger] post[ee].1[x]
                                    == rid as u32 by {
                            if rid == id {
                                assert(post[e as int].1[post[e as int].1.len() - 1] == rid as u32);
                            } else {
                                let w = choose|we: int, wx: int|
                                    0 <= we < pre.len() && 0 <= wx < pre[we].1.len()
                                        && #[trigger] pre[we].1[wx] == rid as u32;
                                assert(post[w.0].1[w.1] == rid as u32);
                            }
                        }
                    }
                },
                None => {
                    if entries.len() >= INDEX_MAX_CARDINALITY {
                        proof {
                            let es = entries_view(entries);
                            let w = Seq::new(es.len(), |e: int| es[e].1[0] as int).push(id as int);
                            assert(col < rv[id as int].len());
                            assert(key@ == spec_index_key(rv[id as int][col as int]));
                            assert forall|a: int|
                                0 <= a < w.len() implies 0 <= #[trigger] w[a] < rv.len() && (
                            col as int) < rv[w[a]].len() by {
                                if a < es.len() {
                                    assert(es[a].1[0] == es[a].1[0]);
                                    assert(w[a] == es[a].1[0] as int);
                                } else {
                                    assert(w[a] == id as int);
                                }
                            }
                            assert forall|a: int, b: int|
                                #![trigger w[a], w[b]]
                                0 <= a < b < w.len() implies spec_index_key(
                                rv[w[a]][col as int],
                            ) != spec_index_key(rv[w[b]][col as int]) by {
                                assert(w[a] == es[a].1[0] as int);
                                assert(spec_index_key(rv[w[a]][col as int]) == es[a].0);
                                if b < es.len() {
                                    assert(w[b] == es[b].1[0] as int);
                                    assert(spec_index_key(rv[w[b]][col as int]) == es[b].0);
                                    assert(es[a].0 != es[b].0);
                                } else {
                                    assert(w[b] == id as int);
                                    assert(spec_index_key(rv[w[b]][col as int]) == key@);
                                    assert(es[a].0 != key@);
                                }
                            }
                            assert(distinct_key_rows(rv, col as int, w));
                            assert(w.len() > INDEX_MAX_CARDINALITY);
                        }
                        return None;
                    }
                    let mut ids: Vec<u32> = Vec::new();
                    ids.push(id as u32);
                    let ghost kv = key@;
                    let ghost iv = ids@;
                    entries.push((key, ids));
                    proof {
                        let post = entries_view(entries);
                        assert(post.len() == pre.len() + 1);
                        assert forall|k: int| 0 <= k < post.len() implies #[trigger] post[k] == (
                        if k < pre.len() {
                            pre[k]
                        } else {
                            (kv, iv)
                        }) by {
                            assert(post[k] == (entries@[k].0@, entries@[k].1@));
                        }
                        assert(iv =~= seq![id as u32]);
                        assert forall|ee: int, x: int, y: int|
                            #![trigger post[ee].1[x], post[ee].1[y]]
                            0 <= ee < post.len() && 0 <= x < y < post[ee].1.len() implies post[ee].1[x]
                            < post[ee].1[y] by {
                            if ee < pre.len() {
                                assert(pre[ee].1[x] == post[ee].1[x] && pre[ee].1[y] == post[ee].1[y]);
                            }
                        }
                        assert forall|ee: int, x: int|
                            #![trigger post[ee].1[x]]
                            0 <= ee < post.len() && 0 <= x < post[ee].1.len() implies (post[ee].1[x]
                            as int) < id + 1 && col < rv[post[ee].1[x] as int].len()
                            && spec_index_key(rv[post[ee].1[x] as int][col as int]) == post[ee].0 by {
                            if ee < pre.len() {
                                assert(pre[ee].1[x] == post[ee].1[x]);
                            } else {
                                assert(post[ee].1[x] == id as u32);
                            }
                        }
                        assert forall|rid: int|
                            0 <= rid < id + 1 && col < (#[trigger] rv[rid]).len() implies exists|ee: int, x: int|
                                0 <= ee < post.len() && 0 <= x < post[ee].1.len() && #[trigger] post[ee].1[x]
                                    == rid as u32 by {
                            if rid == id {
                                assert(post[pre.len() as int].1[0] == rid as u32);
                            } else {
                                let w = choose|we: int, wx: int|
                                    0 <= we < pre.len() && 0 <= wx < pre[we].1.len()
                                        && #[trigger] pre[we].1[wx] == rid as u32;
                                assert(post[w.0].1[w.1] == rid as u32);
                            }
                        }
                    }
                },
            }
        }
        id = id + 1;
    }
    Some(ColumnIndex { entries })
}

/// Look up the rows whose cell matches the query key exactly, for the
/// case-insensitive whole-word search.
pub fn index_lookup(ix: &ColumnIndex, query: &str) -> (r: Vec<u32>)
    requires
        entries_keys_unique(ix.entries),
    ensures
        ({
            let es = entries_view(ix.entries);
            match spec_entry_of(es, spec_index_key(query@)) {
                Option::Some(e) => r@ == es[e].1,
                Option::None => r@.len() == 0,
            }
        }),
{
    let key = index_key(query);
    let ghost es = entries_view(ix.entries);
    match find_entry(&ix.entries, &key) {
        Some(e) => {
            let mut out: Vec<u32> = Vec::new();
            let ids = &ix.entries[e].1;
            let mut i: usize = 0;
            while i < ids.len()
                invariant
                    0 <= i <= ids@.len(),
                    out@ == ids@.take(i as int),
                decreases ids@.len() - i,
            {
                out.push(ids[i]);
                i = i + 1;
                assert(out@ =~= ids@.take(i as int));
            }
            proof {
                assert(out@ =~= ids@);
                assert(es[e as int].1 == ix.entries@[e as int].1@);
                lemma_entry_of_char(es, spec_index_key(query@), e as int);
            }
            out
        },
        None => {
            proof {
                lemma_entry_of_none(es, spec_index_key(query@));
            }
            Vec::new()
        },
    }
}

/// Keys are pairwise distinct.
pub open spec fn entries_keys_unique(entries: Vec<(Vec<u8>, Vec<u32>)>) -> bool {
    forall|a: int, b: int|
        0 <= a < b < entries_view(entries).len() ==> (#[trigger] entries_view(entries)[a]).0 != (
        #[trigger] entries_view(entries)[b]).0
}

/// The position of a key among the entries.
pub open spec fn spec_entry_of(es: Seq<(Seq<u8>, Seq<u32>)>, key: Seq<u8>) -> Option<int> {
    if exists|e: int| 0 <= e < es.len() && (#[trigger] es[e]).0 == key {
        Option::Some(choose|e: int| 0 <= e < es.len() && (#[trigger] es[e]).0 == key)
    } else {
        Option::None
    }
}

proof fn lemma_entry_of_char(es: Seq<(Seq<u8>, Seq<u32>)>, key: Seq<u8>, e: int)
    requires
        0 <= e < es.len(),
        es[e].0 == key,
        forall|a: int, b: int| 0 <= a < b < es.len() ==> (#[trigger] es[a]).0 != (
        #[trigger] es[b]).0,
    ensures
        spec_entry_of(es, key) == Option::Some(e),
{
    assert(exists|x: int| 0 <= x < es.len() && (#[trigger] es[x]).0 == key);
    let w = choose|x: int| 0 <= x < es.len() && (#[trigger] es[x]).0 == key;
    if w != e {
        if w < e {
            assert(es[w].0 != es[e].0);
        } else {
            assert(es[e].0 != es[w].0);
        }
    }
}

proof fn lemma_entry_of_none(es: Seq<(Seq<u8>, Seq<u32>)>, key: Seq<u8>)
    requires
        forall|e: int| 0 <= e < es.len() ==> (#[trigger] es[e]).0 != key,
    ensures
        spec_entry_of(es, key) is None,
{
}

/// The session's search index: one optional inverted index per column,
/// with the columns dropped for cardinality listed separately.
pub struct SearchIndex {
    pub columns: Vec<Option<ColumnIndex>>,
    pub ready: bool,
    pub skipped_columns: Vec<usize>,
}

impl SearchIndex {
    /// Every built column is the complete inverted image of its column.
    pub open spec fn wf(&self, rows: Seq<Seq<Seq<char>>>) -> bool {
        forall|c: int|
            0 <= c < self.columns@.len() ==> match #[trigger] self.columns@[c] {
                Option::Some(ci) => ci.complete(rows, c) && entries_keys_unique(ci.entries),
                Option::None => true,
            }
    }

    /// An empty, not-yet-ready index.
    pub fn new() -> (r: SearchIndex)
        ensures
            r.columns@.len() == 0,
            !r.ready,
            r.skipped_columns@.len() == 0,
    {
        SearchIndex { columns: Vec::new(), ready: false, skipped_columns: Vec::new() }
    }
}

/// Build the inverted index of every column over the loaded rows; a column
/// whose distinct-key count passes the cap is dropped and recorded.
pub fn build_search_index(rows: &Vec<Vec<String>>, num_columns: usize) -> (r: SearchIndex)
    requires
        rows@.len() <= u32::MAX,
    ensures
        r.wf(rows_text_view(*rows)),
        r.columns@.len() == num_columns,
        r.ready == (num_columns > 0),
        forall|c: int|
            0 <= c < num_columns ==> ((#[trigger] r.columns@[c]) is None
                <==> r.skipped_columns@.contains(c as usize)),
        forall|c: int|
            0 <= c < num_columns ==> ((#[trigger] r.columns@[c]) is None ==> spec_cap_exceeded(
                rows_text_view(*rows),
                c,
            )),
{
    let ghost rv = rows_text_view(*rows);
    let mut columns: Vec<Option<ColumnIndex>> = Vec::new();
    let mut skipped: Vec<usize> = Vec::new();
    let mut c: usize = 0;
    while c < num_columns
        invariant
            0 <= c <= num_columns,
            rows@.len() <= u32::MAX,
            rv == rows_text_view(*rows),
            columns@.len() == c,
            forall|k: int|
                0 <= k < c ==> match #[trigger] columns@[k] {
                    Option::Some(ci) => ci.complete(rv, k) && entries_keys_unique(ci.entries),
                    Option::None => true,
                },
            forall|k: int|
                0 <= k < c ==> ((#[trigger] columns@[k]) is None <==> skipped@.contains(
                    k as usize,
                )),
            forall|k: int|
                0 <= k < c ==> ((#[trigger] columns@[k]) is None ==> spec_cap_exceeded(rv, k)),
            forall|k: int| 0 <= k < skipped@.len() ==> (#[trigger] skipped@[k]) < c,
        decreases num_columns - c,
    {
        match build_column_index(rows, c) {
            Some(ix) => {
                columns.push(Some(ix));
                proof {
                    assert forall|k: int| 0 <= k < c + 1 implies ((#[trigger] columns@[k]) is None
                        <==> skipped@.contains(k as usize)) by {
                        if k == c {
                            if skipped@.contains(k as usize) {
                                let w = choose|w: int|
                                    0 <= w < skipped@.len() && skipped@[w] == k as usize;
                                assert(skipped@[w] < c);
                            }
                        }
                    }
                }
            },
            None => {
                let ghost pre = skipped@;
                columns.push(None);
                skipped.push(c);
                proof {
                    assert(skipped@ == pre.push(c));
                    assert(skipped@[skipped@.len() - 1] == c);
                    assert(skipped@.contains(c));
                    assert forall|k: int| 0 <= k < c + 1 implies ((#[trigger] columns@[k]) is None
                        <==> skipped@.contains(k as usize)) by {
                        if k < c {
                            if pre.contains(k as usize) {
                                let w = choose|w: int| 0 <= w < pre.len() && pre[w] == k as usize;
                                assert(skipped@[w] == k as usize);
                            }
                            if skipped@.contains(k as usize) {
                                let w = choose|w: int|
                                    0 <= w < skipped@.len() && skipped@[w] == k as usize;
                                assert(w < pre.len());
                                assert(pre[w] == k as usize);
                                assert(pre.contains(k as usize));
                            }
                        }
                    }
                    assert(forall|k: int|
                        0 <= k < skipped@.len() ==> (#[trigger] skipped@[k]) < c + 1);
                }
            },
        }
        c = c + 1;
    }
    SearchIndex { columns, ready: num_columns > 0, skipped_columns: skipped }
}

/// Index-accelerated whole-word search: applicable only when the index is
/// ready, the match is case-insensitive, a column is given and that column
/// still has an index; everything else falls through to the scanner.
pub fn index_search_whole_word(
    ix: &SearchIndex,
    col: Option<usize>,
    query: &str,
    match_case: bool,
    whole_word: bool,
) -> (r: Option<Vec<u32>>)
    requires
        forall|c: int|
            0 <= c < ix.columns@.len() ==> match #[trigger] ix.columns@[c] {
                Option::Some(ci) => entries_keys_unique(ci.entries),
                Option::None => true,
            },
    ensures
        r is Some <==> (ix.ready && !match_case && whole_word && col is Some
            && col->0 < ix.columns@.len() && ix.columns@[col->0 as int] is Some),
        r matches Option::Some(ids) ==> ({
            let ci = ix.columns@[col->0 as int]->0;
            let es = entries_view(ci.entries);
            match spec_entry_of(es, spec_index_key(query@)) {
                Option::Some(e) => ids@ == es[e].1,
                Option::None => ids@.len() == 0,
            }
        }),
{
    if !ix.ready || match_case || !whole_word {
        return None;
    }
    let c = match col {
        Some(c) => c,
        None => {
            return None;
        },
    };
    if c >= ix.columns.len() {
        return None;
    }
    match &ix.columns[c] {
        None => None,
        Some(ci) => Some(index_lookup(ci, query)),
    }
}

/// Index law: when the index of a column is complete and neither the query
/// nor any cell of that column overruns the key budget, the whole-word
/// case-insensitive lookup returns exactly the rows the scanner's predicate
/// accepts.
pub proof fn lemma_index_matches_scanner(
    ix: &ColumnIndex,
    rows: Seq<Seq<Seq<char>>>,
    col: int,
    query: Seq<char>,
)
    requires
        ix.complete(rows, col),
        rows.len() <= u32::MAX,
        vstd::utf8::encode_utf8(query).len() <= INDEX_VALUE_MAX_LEN,
        forall|id: int|
            0 <= id < rows.len() && col < (#[trigger] rows[id]).len() ==> vstd::utf8::encode_utf8(
                rows[id][col],
            ).len() <= INDEX_VALUE_MAX_LEN,
    ensures
        ({
            let es = entries_view(ix.entries);
            forall|id: int|
                0 <= id < rows.len() ==> ((match spec_entry_of(es, spec_index_key(query)) {
                    Option::Some(e) => es[e].1.contains(id as u32),
                    Option::None => false,
                }) <==> col < (#[trigger] rows[id]).len() && spec_cell_matches(
                    rows[id][col],
                    lower_of(query),
                    false,
                    true,
                ))
        }),
{
    let es = entries_view(ix.entries);
    let qk = spec_index_key(query);
    assert forall|id: int| 0 <= id < rows.len() implies ((match spec_entry_of(es, qk) {
        Option::Some(e) => es[e].1.contains(id as u32),
        Option::None => false,
    }) <==> col < (#[trigger] rows[id]).len() && spec_cell_matches(
        rows[id][col],
        lower_of(query),
        false,
        true,
    )) by {
        match spec_entry_of(es, qk) {
            Option::Some(e) => {
                assert(0 <= e < es.len() && es[e].0 == qk);
                if es[e].1.contains(id as u32) {
                    let x = choose|x: int| 0 <= x < es[e].1.len() && es[e].1[x] == id as u32;
                    assert(es[e].1[x] == id as u32);
                    assert((es[e].1[x] as int) == id);
                    assert(col < rows[id].len());
                    assert(spec_index_key(rows[id][col]) == qk);
                    lemma_short_key_is_lower(rows[id][col]);
                    lemma_short_lower_eq(query);
                    assert(vstd::utf8::encode_utf8(lower_of(rows[id][col]))
                        == vstd::utf8::encode_utf8(lower_of(query)));
                    assert(lower_of(rows[id][col]) == lower_of(query)) by {
                        vstd::utf8::encode_utf8_decode_utf8(lower_of(rows[id][col]));
                        vstd::utf8::encode_utf8_decode_utf8(lower_of(query));
                    }
                    assert(spec_cell_matches(rows[id][col], lower_of(query), false, true));
                }
                if col < rows[id].len() && spec_cell_matches(rows[id][col], lower_of(query), false, true) {
                    let w = choose|we: int, wx: int|
                        0 <= we < es.len() && 0 <= wx < es[we].1.len() && #[trigger] es[we].1[wx]
                            == id as u32;
                    let we = w.0;
                    let wx = w.1;
                    assert(es[we].1[wx] == id as u32);
                    assert((es[we].1[wx] as int) == id);
                    assert(spec_index_key(rows[id][col]) == es[we].0);
                    lemma_short_key_is_lower(rows[id][col]);
                    lemma_short_lower_eq(query);
                    assert(lower_of(rows[id][col]) == lower_of(query));
                    assert(spec_index_key(rows[id][col]) == qk);
                    assert(we == e) by {
                        if we != e {
                            if we < e {
                                assert(es[we].0 != es[e].0);
                            } else {
                                assert(es[e].0 != es[we].0);
                            }
                        }
                    }
                    assert(es[e].1.contains(id as u32));
                }
            },
            Option::None => {
                if col < rows[id].len() && spec_cell_matches(rows[id][col], lower_of(query), false, true) {
                    let w = choose|we: int, wx: int|
                        0 <= we < es.len() && 0 <= wx < es[we].1.len() && #[trigger] es[we].1[wx]
                            == id as u32;
                    let we = w.0;
                    let wx = w.1;
                    assert(es[we].1[wx] == id as u32);
                    assert((es[we].1[wx] as int) == id);
                    assert(spec_index_key(rows[id][col]) == es[we].0);
                    lemma_short_key_is_lower(rows[id][col]);
                    lemma_short_lower_eq(query);
                    assert(lower_of(rows[id][col]) == lower_of(query));
                    assert(spec_index_key(rows[id][col]) == qk);
                    assert(exists|x: int| 0 <= x < es.len() && (#[trigger] es[x]).0 == qk);
                    assert(false);
                }
            },
        }
    }
}

/// With the key budget not exceeded, a cell's index key is just the UTF-8
/// bytes of its lowercased text.
proof fn lemma_short_key_is_lower(cell: Seq<char>)
    requires
        vstd::utf8::encode_utf8(cell).len() <= INDEX_VALUE_MAX_LEN,
    ensures
        spec_index_key(cell) == vstd::utf8::encode_utf8(lower_of(cell)),
{
    vstd::utf8::encode_utf8_decode_utf8(cell);
}

proof fn lemma_short_lower_eq(query: Seq<char>)
    requires
        vstd::utf8::encode_utf8(query).len() <= INDEX_VALUE_MAX_LEN,
    ensures
        spec_index_key(query) == vstd::utf8::encode_utf8(lower_of(query)),
{
    vstd::utf8::encode_utf8_decode_utf8(query);
}

} // verus!
