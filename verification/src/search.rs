//! The scanner: substring / exact / whole-word match over rows, scanned in
//! range partitions by a worker pool, plus the bounded result chunking used
//! by the streaming variant.

use rayon::iter::IndexedParallelIterator;
use rayon::iter::IntoParallelRefIterator;
use rayon::iter::ParallelIterator;
use vstd::prelude::*;

use crate::dialect::ParseSettings;
use crate::reader::{offsets_wf, spec_decode_row};
use crate::record::spec_next_record;
use crate::text::{chars_vec, contains_chars, contains_seq, eq_chars, lower_of, to_lowercase};

verus! {

/// Cell predicate: the four match modes over a cell and a processed query
/// (the query is already lowercased when `match_case` is off).
pub open spec fn spec_cell_matches(
    cell: Seq<char>,
    q: Seq<char>,
    match_case: bool,
    whole_word: bool,
) -> bool {
    if match_case {
        if whole_word {
            cell == q
        } else {
            contains_seq(cell, q)
        }
    } else {
        if whole_word {
            lower_of(cell) == q
        } else {
            contains_seq(lower_of(cell), q)
        }
    }
}

/// Row predicate: one designated cell, or any cell when no column is given.
pub open spec fn spec_row_matches(
    row: Seq<Seq<char>>,
    col: Option<usize>,
    q: Seq<char>,
    match_case: bool,
    whole_word: bool,
) -> bool {
    match col {
        Option::Some(c) => c < row.len() && spec_cell_matches(row[c as int], q, match_case, whole_word),
        Option::None => exists|k: int|
            0 <= k < row.len() && #[trigger] spec_cell_matches(row[k], q, match_case, whole_word),
    }
}

/// Whether `cell` satisfies the predicate, decoding done by the caller.
pub fn cell_matches(cell: &str, q: &Vec<char>, match_case: bool, whole_word: bool) -> (r: bool)
    ensures
        r == spec_cell_matches(cell@, q@, match_case, whole_word),
{
    if match_case {
        let cv = chars_vec(cell);
        if whole_word {
            eq_chars(&cv, q)
        } else {
            contains_chars(&cv, q)
        }
    } else {
        let low = to_lowercase(cell);
        let cv = chars_vec(low.as_str());
        if whole_word {
            eq_chars(&cv, q)
        } else {
            contains_chars(&cv, q)
        }
    }
}

/// Whether a decoded row satisfies the predicate.
pub fn row_matches(
    row: &Vec<String>,
    col: Option<usize>,
    q: &Vec<char>,
    match_case: bool,
    whole_word: bool,
) -> (r: bool)
    ensures
        r == spec_row_matches(crate::reader::row_text_view(*row), col, q@, match_case, whole_word),
{
    let ghost rv = crate::reader::row_text_view(*row);
    match col {
        Some(c) => {
            if c < row.len() {
                let m = cell_matches(row[c].as_str(), q, match_case, whole_word);
                assert(rv[c as int] == row@[c as int]@);
                m
            } else {
                false
            }
        },
        None => {
            let mut k: usize = 0;
            while k < row.len()
                invariant
                    col is None,
                    0 <= k <= row@.len(),
                    rv == crate::reader::row_text_view(*row),
                    forall|j: int|
                        0 <= j < k ==> !spec_cell_matches(
                            #[trigger] rv[j],
                            q@,
                            match_case,
                            whole_word,
                        ),
                decreases row@.len() - k,
            {
                if cell_matches(row[k].as_str(), q, match_case, whole_word) {
                    assert(rv[k as int] == row@[k as int]@);
                    proof {
                        let kk = k as int;
                        assert(rv[kk] == row@[kk]@);
                        assert(0 <= kk < rv.len());
                        assert(spec_cell_matches(rv[kk], q@, match_case, whole_word));
                        assert(col is None);
                        assert(spec_row_matches(rv, col, q@, match_case, whole_word));
                    }
                    return true;
                }
                assert(rv[k as int] == row@[k as int]@);
                k = k + 1;
            }
            false
        },
    }
}

/// The raw decoded text of the record at one offset: the scanner tests rows
/// as parsed, before any policy runs.
pub open spec fn spec_raw_row_at(
    data: Seq<u8>,
    offsets: Seq<u64>,
    i: int,
    s: ParseSettings,
) -> Seq<Seq<char>> {
    match spec_next_record(data, offsets[i] as int, s.delimiter, s.quote, s.escape, s.line_ending) {
        Option::Some(r) => spec_decode_row(s.encoding_label@, r.0),
        Option::None => Seq::empty(),
    }
}

/// The ascending row ids in `[i, end)` whose raw row matches.
pub open spec fn spec_matches_in_range(
    data: Seq<u8>,
    offsets: Seq<u64>,
    i: int,
    end: int,
    s: ParseSettings,
    col: Option<usize>,
    q: Seq<char>,
    match_case: bool,
    whole_word: bool,
) -> Seq<int>
    decreases end - i,
{
    if !(0 <= i < end && i < offsets.len()) {
        Seq::empty()
    } else {
        let rest = spec_matches_in_range(data, offsets, i + 1, end, s, col, q, match_case, whole_word);
        if spec_row_matches(spec_raw_row_at(data, offsets, i, s), col, q, match_case, whole_word) {
            seq![i] + rest
        } else {
            rest
        }
    }
}

/// Scan rows `[start, end)` of the offset array sequentially, returning the
/// ids of the matching rows in ascending order.
pub fn search_range_with_offsets(
    data: &[u8],
    offsets: &Vec<u64>,
    start: usize,
    end: usize,
    col: Option<usize>,
    q: &Vec<char>,
    match_case: bool,
    whole_word: bool,
    s: &ParseSettings,
) -> (r: Vec<usize>)
    requires
        offsets_wf(data@, offsets@, *s),
    ensures
        r@.map_values(|x: usize| x as int) == spec_matches_in_range(
            data@,
            offsets@,
            start as int,
            end as int,
            *s,
            col,
            q@,
            match_case,
            whole_word,
        ),
{
    let mut out: Vec<usize> = Vec::new();
    let last: usize = if end <= offsets.len() {
        end
    } else {
        offsets.len()
    };
    if start >= last {
        assert(out@.map_values(|x: usize| x as int) =~= spec_matches_in_range(
            data@,
            offsets@,
            start as int,
            end as int,
            *s,
            col,
            q@,
            match_case,
            whole_word,
        ));
        return out;
    }
    let mut i: usize = start;
    while i < last
        invariant
            offsets_wf(data@, offsets@, *s),
            start <= i <= last <= offsets@.len(),
            last == (if end <= offsets@.len() {
                end as int
            } else {
                offsets@.len() as int
            }),
            spec_matches_in_range(
                data@,
                offsets@,
                start as int,
                end as int,
                *s,
                col,
                q@,
                match_case,
                whole_word,
            ) == out@.map_values(|x: usize| x as int) + spec_matches_in_range(
                data@,
                offsets@,
                i as int,
                end as int,
                *s,
                col,
                q@,
                match_case,
                whole_word,
            ),
        decreases last - i,
    {
        let ghost pre = out@.map_values(|x: usize| x as int);
        let ghost rest = spec_matches_in_range(
            data@,
            offsets@,
            i + 1,
            end as int,
            *s,
            col,
            q@,
            match_case,
            whole_word,
        );
        let n = data.len();
        let off64 = offsets[i];
        assert(off64 <= data@.len() && spec_next_record(
            data@,
            offsets@[i as int] as int,
            s.delimiter,
            s.quote,
            s.escape,
            s.line_ending,
        ) is Some);
        let off = off64 as usize;
        match crate::record::next_record(data, off, s.delimiter, s.quote, s.escape, s.line_ending) {
            None => {
                assert(false);
            },
            Some(fe) => {
                let (fields, _) = fe;
                let (text_row, _) = crate::reader::decode_fields(
                    s.encoding_label.as_str(),
                    &fields,
                );
                let hit = row_matches(&text_row, col, q, match_case, whole_word);
                proof {
                    assert(crate::reader::row_text_view(text_row) == spec_raw_row_at(
                        data@,
                        offsets@,
                        i as int,
                        *s,
                    ));
                }
                if hit {
                    out.push(i);
                    proof {
                        assert(out@.map_values(|x: usize| x as int) =~= pre.push(i as int));
                        assert(pre + (seq![i as int] + rest) =~= pre.push(i as int) + rest);
                    }
                }
            },
        }
        i = i + 1;
    }
    proof {
        assert(spec_matches_in_range(
            data@,
            offsets@,
            last as int,
            end as int,
            *s,
            col,
            q@,
            match_case,
            whole_word,
        ) =~= Seq::<int>::empty());
        let cur = out@.map_values(|x: usize| x as int);
        assert(cur + Seq::<int>::empty() =~= cur);
    }
    out
}

/// Rows scanned per worker range.
pub const SEARCH_CHUNK_SIZE: usize = 25000;

/// Matches streamed per event in the streaming variants.
pub const RESULT_CHUNK_SIZE: usize = 5000;

/// Scanning `[a, c)` is scanning `[a, b)` and then `[b, c)`.
pub proof fn lemma_matches_split(
    data: Seq<u8>,
    offsets: Seq<u64>,
    a: int,
    b: int,
    c: int,
    s: ParseSettings,
    col: Option<usize>,
    q: Seq<char>,
    match_case: bool,
    whole_word: bool,
)
    requires
        0 <= a <= b <= c,
    ensures
        spec_matches_in_range(data, offsets, a, c, s, col, q, match_case, whole_word)
            == spec_matches_in_range(data, offsets, a, b, s, col, q, match_case, whole_word)
            + spec_matches_in_range(data, offsets, b, c, s, col, q, match_case, whole_word),
    decreases b - a,
{
    let whole = spec_matches_in_range(data, offsets, a, c, s, col, q, match_case, whole_word);
    let left = spec_matches_in_range(data, offsets, a, b, s, col, q, match_case, whole_word);
    let right = spec_matches_in_range(data, offsets, b, c, s, col, q, match_case, whole_word);
    if a == b {
        assert(left =~= Seq::<int>::empty());
        assert(left + right =~= right);
    } else {
        lemma_matches_split(data, offsets, a + 1, b, c, s, col, q, match_case, whole_word);
        if a < offsets.len() {
            let lrest = spec_matches_in_range(data, offsets, a + 1, b, s, col, q, match_case, whole_word);
            let wrest = spec_matches_in_range(data, offsets, a + 1, c, s, col, q, match_case, whole_word);
            if spec_row_matches(spec_raw_row_at(data, offsets, a, s), col, q, match_case, whole_word) {
                assert(whole == seq![a] + wrest);
                assert(left == seq![a] + lrest);
                assert((seq![a] + lrest) + right =~= seq![a] + (lrest + right));
            }
        } else {
            assert(whole =~= Seq::<int>::empty());
            assert(left =~= Seq::<int>::empty());
            assert(right =~= Seq::<int>::empty());
            assert(left + right =~= whole);
        }
    }
}

/// The scan of `[a, b)` is ascending, stays in range, and holds a row id
/// exactly when that row matches.
pub proof fn lemma_matches_set(
    data: Seq<u8>,
    offsets: Seq<u64>,
    a: int,
    b: int,
    s: ParseSettings,
    col: Option<usize>,
    q: Seq<char>,
    match_case: bool,
    whole_word: bool,
)
    requires
        0 <= a,
    ensures
        ({
            let m = spec_matches_in_range(data, offsets, a, b, s, col, q, match_case, whole_word);
            &&& forall|j: int| 0 <= j < m.len() ==> a <= #[trigger] m[j] < b && m[j] < offsets.len()
            &&& forall|j: int| 0 <= j < m.len() - 1 ==> #[trigger] m[j] < m[j + 1]
            &&& forall|t: int|
                #[trigger] m.contains(t) <==> (a <= t < b && t < offsets.len()
                    && spec_row_matches(spec_raw_row_at(data, offsets, t, s), col, q, match_case, whole_word))
        }),
    decreases b - a,
{
    let m = spec_matches_in_range(data, offsets, a, b, s, col, q, match_case, whole_word);
    if 0 <= a < b && a < offsets.len() {
        lemma_matches_set(data, offsets, a + 1, b, s, col, q, match_case, whole_word);
        let rest = spec_matches_in_range(data, offsets, a + 1, b, s, col, q, match_case, whole_word);
        if spec_row_matches(spec_raw_row_at(data, offsets, a, s), col, q, match_case, whole_word) {
            assert(m == seq![a] + rest);
            assert(forall|j: int| 0 <= j < rest.len() ==> m[j + 1] == #[trigger] rest[j]);
            assert forall|t: int| #[trigger] m.contains(t) implies (a <= t < b && t < offsets.len()
                && spec_row_matches(spec_raw_row_at(data, offsets, t, s), col, q, match_case, whole_word)) by {
                let j = choose|j: int| 0 <= j < m.len() && m[j] == t;
                if j > 0 {
                    assert(rest[j - 1] == t);
                    assert(rest.contains(t));
                }
            }
            assert forall|t: int| (a <= t < b && t < offsets.len()
                && spec_row_matches(spec_raw_row_at(data, offsets, t, s), col, q, match_case, whole_word))
                implies #[trigger] m.contains(t) by {
                if t == a {
                    assert(m[0] == t);
                } else {
                    assert(rest.contains(t));
                    let j = choose|j: int| 0 <= j < rest.len() && rest[j] == t;
                    assert(m[j + 1] == t);
                }
            }
        } else {
            assert(m == rest);
            assert forall|t: int| #[trigger] m.contains(t) implies (a <= t < b && t < offsets.len()
                && spec_row_matches(spec_raw_row_at(data, offsets, t, s), col, q, match_case, whole_word)) by {
                assert(rest.contains(t));
            }
            assert forall|t: int| (a <= t < b && t < offsets.len()
                && spec_row_matches(spec_raw_row_at(data, offsets, t, s), col, q, match_case, whole_word))
                implies #[trigger] m.contains(t) by {
                assert(t != a);
                assert(rest.contains(t));
            }
        }
    } else {
        assert(m =~= Seq::<int>::empty());
        assert forall|t: int| #[trigger] m.contains(t) implies false by {}
    }
}

/// Relies on rayon's `par_iter().map().collect()`: collecting an indexed
/// parallel iterator into a `Vec` preserves order, and the closure only
/// calls the verified sequential range scan, whose result is determined by
/// its arguments.
#[verifier::external_body]
fn par_search_ranges(
    data: &[u8],
    offsets: &Vec<u64>,
    ranges: &Vec<(usize, usize)>,
    col: Option<usize>,
    q: &Vec<char>,
    match_case: bool,
    whole_word: bool,
    s: &ParseSettings,
) -> (r: Vec<Vec<usize>>)
    requires
        offsets_wf(data@, offsets@, *s),
    ensures
        r@.len() == ranges@.len(),
        forall|i: int|
            0 <= i < ranges@.len() ==> (#[trigger] r@[i])@.map_values(|x: usize| x as int)
                == spec_matches_in_range(
                data@,
                offsets@,
                ranges@[i].0 as int,
                ranges@[i].1 as int,
                *s,
                col,
                q@,
                match_case,
                whole_word,
            ),
{
    ranges
        .par_iter()
        .map(|rg| search_range_with_offsets(data, offsets, rg.0, rg.1, col, q, match_case, whole_word, s))
        .collect()
}

/// Scan the whole offset array for `query`, partitioned into fixed ranges
/// handled by a worker pool; the concatenated result is the ascending list
/// of all matching row ids, independent of worker interleaving. The query
/// is lowercased here when `match_case` is off.
pub fn search_with_offsets(
    data: &[u8],
    offsets: &Vec<u64>,
    col: Option<usize>,
    query: &str,
    match_case: bool,
    whole_word: bool,
    s: &ParseSettings,
) -> (r: Vec<usize>)
    requires
        offsets_wf(data@, offsets@, *s),
    ensures
        r@.map_values(|x: usize| x as int) == spec_matches_in_range(
            data@,
            offsets@,
            0,
            offsets@.len() as int,
            *s,
            col,
            (if match_case {
                query@
            } else {
                lower_of(query@)
            }),
            match_case,
            whole_word,
        ),
{
    let q: Vec<char> = if match_case {
        chars_vec(query)
    } else {
        let low = to_lowercase(query);
        chars_vec(low.as_str())
    };
    let total = offsets.len();
    let mut ranges: Vec<(usize, usize)> = Vec::new();
    let mut k: usize = 0;
    while k < total
        invariant
            0 <= k <= total,
            total == offsets@.len(),
            k % SEARCH_CHUNK_SIZE == 0 || k == total,
            ranges@.len() > 0 ==> ranges@.last().1 == k,
            ranges@.len() == 0 ==> k == 0,
            forall|i: int|
                0 <= i < ranges@.len() ==> (#[trigger] ranges@[i]).0 <= ranges@[i].1 <= total,
            forall|i: int| 0 <= i < ranges@.len() - 1 ==> (#[trigger] ranges@[i]).1 == ranges@[i + 1].0,
            ranges@.len() > 0 ==> ranges@[0].0 == 0,
        decreases total - k,
    {
        let hi = if total - k >= SEARCH_CHUNK_SIZE {
            k + SEARCH_CHUNK_SIZE
        } else {
            total
        };
        ranges.push((k, hi));
        k = hi;
    }
    let parts = par_search_ranges(data, offsets, &ranges, col, &q, match_case, whole_word, s);
    let mut out: Vec<usize> = Vec::new();
    let mut i: usize = 0;
    let ghost qv = q@;
    while i < parts.len()
        invariant
            offsets_wf(data@, offsets@, *s),
            0 <= i <= parts@.len(),
            parts@.len() == ranges@.len(),
            total == offsets@.len(),
            ranges@.len() > 0 ==> ranges@[0].0 == 0,
            ranges@.len() > 0 ==> ranges@.last().1 == total,
            ranges@.len() == 0 ==> total == 0,
            forall|j: int|
                0 <= j < ranges@.len() ==> (#[trigger] ranges@[j]).0 <= ranges@[j].1 <= total,
            forall|j: int| 0 <= j < ranges@.len() - 1 ==> (#[trigger] ranges@[j]).1 == ranges@[j + 1].0,
            forall|j: int|
                0 <= j < ranges@.len() ==> (#[trigger] parts@[j])@.map_values(|x: usize| x as int)
                    == spec_matches_in_range(
                    data@,
                    offsets@,
                    ranges@[j].0 as int,
                    ranges@[j].1 as int,
                    *s,
                    col,
                    qv,
                    match_case,
                    whole_word,
                ),
            out@.map_values(|x: usize| x as int) == spec_matches_in_range(
                data@,
                offsets@,
                0,
                (if i == 0 {
                    0int
                } else {
                    ranges@[i - 1].1 as int
                }),
                *s,
                col,
                qv,
                match_case,
                whole_word,
            ),
        decreases parts@.len() - i,
    {
        let ghost upto = if i == 0 {
            0int
        } else {
            ranges@[i - 1].1 as int
        };
        proof {
            assert(ranges@[i as int].0 as int == upto);
            lemma_matches_split(
                data@,
                offsets@,
                0,
                upto,
                ranges@[i as int].1 as int,
                *s,
                col,
                qv,
                match_case,
                whole_word,
            );
        }
        let ghost pre = out@;
        let part = &parts[i];
        let mut j: usize = 0;
        while j < part.len()
            invariant
                0 <= j <= part@.len(),
                out@ == pre + part@.take(j as int),
            decreases part@.len() - j,
        {
            out.push(part[j]);
            j = j + 1;
            assert(out@ =~= pre + part@.take(j as int));
        }
        proof {
            assert(part@.take(part@.len() as int) =~= part@);
            assert(out@ =~= pre + part@);
            let pm = pre.map_values(|x: usize| x as int);
            let qm = part@.map_values(|x: usize| x as int);
            assert(out@.map_values(|x: usize| x as int) =~= pm + qm);
        }
        i = i + 1;
    }
    proof {
        if ranges@.len() == 0 {
            assert(spec_matches_in_range(
                data@,
                offsets@,
                0,
                total as int,
                *s,
                col,
                qv,
                match_case,
                whole_word,
            ) =~= Seq::<int>::empty());
        }
    }
    out
}

/// Scan a file that has no offset array yet: one sequential pass indexes
/// the kept records, and the scan then runs over that array, so row ids
/// refer to the same user-visible rows as every other operation.
pub fn search_without_index(
    data: &[u8],
    col: Option<usize>,
    query: &str,
    match_case: bool,
    whole_word: bool,
    s: &ParseSettings,
    expected: Option<usize>,
) -> (r: Result<Vec<usize>, crate::policy::CsvError>)
    ensures
        s.malformed != crate::dialect::MalformedMode::Strict ==> r is Ok,
        r is Ok <==> crate::offsets::spec_build_ok(
            data@,
            crate::offsets::spec_body_start(
                data@,
                s.delimiter,
                s.quote,
                s.escape,
                s.line_ending,
                s.has_headers,
            ),
            s.delimiter,
            s.quote,
            s.escape,
            s.line_ending,
            expected,
            s.max_field_size,
            s.max_record_size,
            s.malformed,
        ),
        r matches Result::Ok(m) ==> ({
            let offs = crate::reader::spec_offsets_u64(data@, *s, expected);
            m@.map_values(|x: usize| x as int) == spec_matches_in_range(
                data@,
                offs,
                0,
                offs.len() as int,
                *s,
                col,
                (if match_case {
                    query@
                } else {
                    lower_of(query@)
                }),
                match_case,
                whole_word,
            )
        }),
{
    let mut warnings: Vec<crate::policy::ParseWarning> = Vec::new();
    proof {
        if s.malformed != crate::dialect::MalformedMode::Strict {
            crate::record::lemma_next_record_bounds(
                data@,
                0,
                s.delimiter,
                s.quote,
                s.escape,
                s.line_ending,
            );
            crate::offsets::lemma_build_ok_nonstrict(
                data@,
                crate::offsets::spec_body_start(
                    data@,
                    s.delimiter,
                    s.quote,
                    s.escape,
                    s.line_ending,
                    s.has_headers,
                ),
                s.delimiter,
                s.quote,
                s.escape,
                s.line_ending,
                expected,
                s.max_field_size,
                s.max_record_size,
                s.malformed,
            );
        }
    }
    let offs = match crate::offsets::build_row_offsets(data, s, expected, &mut warnings) {
        Ok(offs) => offs,
        Err(err) => {
            return Err(err);
        },
    };
    proof {
        crate::record::lemma_next_record_bounds(
            data@,
            0,
            s.delimiter,
            s.quote,
            s.escape,
            s.line_ending,
        );
        let start0 = crate::offsets::spec_body_start(
            data@,
            s.delimiter,
            s.quote,
            s.escape,
            s.line_ending,
            s.has_headers,
        );
        crate::offsets::lemma_offsets_valid(
            data@,
            start0,
            s.delimiter,
            s.quote,
            s.escape,
            s.line_ending,
            expected,
            s.max_field_size,
            s.max_record_size,
            s.malformed,
        );
        assert(offs@ =~= crate::reader::spec_offsets_u64(data@, *s, expected));
        assert forall|k: int| 0 <= k < offs@.len() implies #[trigger] offs@[k] <= data@.len()
            && crate::record::spec_next_record(
            data@,
            offs@[k] as int,
            s.delimiter,
            s.quote,
            s.escape,
            s.line_ending,
        ) is Some by {
            let oi = crate::offsets::spec_offsets_from(
                data@,
                start0,
                s.delimiter,
                s.quote,
                s.escape,
                s.line_ending,
                expected,
                s.max_field_size,
                s.max_record_size,
                s.malformed,
            );
            assert(offs@.map_values(|x: u64| x as int)[k] == oi[k]);
        }
    }
    Ok(search_with_offsets(data, &offs, col, query, match_case, whole_word, s))
}

/// The result list cut into successive chunks of at most `c` ids.
pub open spec fn spec_chunks(s: Seq<usize>, c: int) -> Seq<Seq<usize>>
    decreases s.len(),
    when c >= 1
{
    if s.len() == 0 {
        Seq::empty()
    } else if s.len() <= c {
        seq![s]
    } else {
        seq![s.take(c)] + spec_chunks(s.skip(c), c)
    }
}

/// Cut a match list into chunks of at most `chunk` ids for streaming.
pub fn chunk_matches(matches: &Vec<usize>, chunk: usize) -> (r: Vec<Vec<usize>>)
    requires
        chunk >= 1,
    ensures
        Seq::new(r@.len(), |i: int| r@[i]@) == spec_chunks(matches@, chunk as int),
{
    let ghost full = matches@;
    let mut out: Vec<Vec<usize>> = Vec::new();
    let mut i: usize = 0;
    assert(Seq::new(out@.len(), |k: int| out@[k]@) =~= Seq::<Seq<usize>>::empty());
    assert(full.skip(0) =~= full);
    while i < matches.len()
        invariant
            chunk >= 1,
            0 <= i <= matches@.len(),
            full == matches@,
            spec_chunks(full, chunk as int) == Seq::new(out@.len(), |k: int| out@[k]@)
                + spec_chunks(full.skip(i as int), chunk as int),
        decreases matches@.len() - i,
    {
        let ghost pre = Seq::new(out@.len(), |k: int| out@[k]@);
        let ghost rem = full.skip(i as int);
        let hi = if matches.len() - i <= chunk {
            matches.len()
        } else {
            i + chunk
        };
        let mut part: Vec<usize> = Vec::new();
        let mut j = i;
        while j < hi
            invariant
                i <= j <= hi <= matches@.len(),
                full == matches@,
                part@ == full.subrange(i as int, j as int),
            decreases hi - j,
        {
            part.push(matches[j]);
            j = j + 1;
            assert(part@ =~= full.subrange(i as int, j as int));
        }
        let ghost pv = part@;
        out.push(part);
        proof {
            let post = Seq::new(out@.len(), |k: int| out@[k]@);
            assert(post =~= pre.push(pv));
            if rem.len() <= chunk {
                assert(pv =~= rem);
                assert(spec_chunks(rem, chunk as int) == seq![rem]);
                assert(full.skip(hi as int) =~= Seq::<usize>::empty());
                assert(spec_chunks(full.skip(hi as int), chunk as int) =~= Seq::<
                    Seq<usize>,
                >::empty());
                assert(pre + seq![rem] =~= pre.push(pv));
                assert(pre.push(pv) + Seq::<Seq<usize>>::empty() =~= pre.push(pv));
            } else {
                assert(pv =~= rem.take(chunk as int));
                assert(rem.skip(chunk as int) =~= full.skip(hi as int));
                assert(spec_chunks(rem, chunk as int) == seq![rem.take(chunk as int)]
                    + spec_chunks(rem.skip(chunk as int), chunk as int));
                assert(pre + (seq![pv] + spec_chunks(full.skip(hi as int), chunk as int)) =~= pre.push(
                    pv,
                ) + spec_chunks(full.skip(hi as int), chunk as int));
            }
        }
        i = hi;
    }
    proof {
        assert(full.skip(matches@.len() as int) =~= Seq::<usize>::empty());
        let cur = Seq::new(out@.len(), |k: int| out@[k]@);
        assert(cur + Seq::<Seq<usize>>::empty() =~= cur);
    }
    out
}

/// Streaming law: the chunks of a match list hold exactly its ids — their
/// concatenation is the list itself, so their union as a set is the
/// non-streaming result and the advertised total is their combined count;
/// every chunk is bounded by `c` and every chunk but the last is full.
pub proof fn lemma_chunks_cover(s: Seq<usize>, c: int)
    requires
        c >= 1,
    ensures
        spec_chunks(s, c).flatten() == s,
        spec_chunks(s, c).flatten().to_set() == s.to_set(),
        forall|i: int| 0 <= i < spec_chunks(s, c).len() ==> (#[trigger] spec_chunks(s, c)[i]).len()
            <= c,
        forall|i: int|
            0 <= i < spec_chunks(s, c).len() - 1 ==> (#[trigger] spec_chunks(s, c)[i]).len() == c,
    decreases s.len(),
{
    let ch = spec_chunks(s, c);
    if s.len() == 0 {
        assert(ch.flatten() =~= s);
    } else if s.len() <= c {
        assert(ch == seq![s]);
        assert(ch.flatten() =~= s) by {
            assert(ch.drop_first() =~= Seq::<Seq<usize>>::empty());
            assert(ch.drop_first().flatten() =~= Seq::<usize>::empty());
            assert(ch.flatten() == ch.first() + ch.drop_first().flatten());
            assert(s + Seq::<usize>::empty() =~= s);
        }
    } else {
        lemma_chunks_cover(s.skip(c), c);
        let rest = spec_chunks(s.skip(c), c);
        assert(ch == seq![s.take(c)] + rest);
        assert(ch.drop_first() =~= rest);
        assert(ch.flatten() == ch.first() + ch.drop_first().flatten());
        assert(s.take(c) + s.skip(c) =~= s);
        assert(forall|i: int| 0 <= i < rest.len() ==> ch[i + 1] == #[trigger] rest[i]);
    }
}

/// The ascending indices of rows whose cell in `col` contains the query,
/// both sides lowercased: what the in-memory parallel search returns.
pub open spec fn spec_mem_matches(
    rows: Seq<Seq<Seq<char>>>,
    i: int,
    col: int,
    qlow: Seq<char>,
) -> Seq<int>
    decreases rows.len() - i,
{
    if !(0 <= i < rows.len()) {
        Seq::empty()
    } else {
        let rest = spec_mem_matches(rows, i + 1, col, qlow);
        if col < rows[i].len() && contains_seq(lower_of(rows[i][col]), qlow) {
            seq![i] + rest
        } else {
            rest
        }
    }
}

/// Whether the row's cell in `col` contains `qlow`, case-insensitively.
pub fn row_col_contains(row: &Vec<String>, col: usize, qlow: &Vec<char>) -> (r: bool)
    ensures
        r == ({
            let rv = crate::reader::row_text_view(*row);
            col < rv.len() && contains_seq(lower_of(rv[col as int]), qlow@)
        }),
{
    let ghost rv = crate::reader::row_text_view(*row);
    if col >= row.len() {
        return false;
    }
    let low = to_lowercase(row[col].as_str());
    let cv = chars_vec(low.as_str());
    assert(rv[col as int] == row@[col as int]@);
    contains_chars(&cv, qlow)
}

/// The view of in-memory rows as text.
pub open spec fn mem_rows_view(data: Seq<Vec<String>>) -> Seq<Seq<Seq<char>>> {
    Seq::new(data.len(), |i: int| crate::reader::row_text_view(data[i]))
}

/// Relies on rayon's `par_iter().enumerate().filter_map().collect()`:
/// collecting into a `Vec` preserves the source order, and the closure only
/// calls the verified per-row test, whose result is determined by its
/// arguments.
#[verifier::external_body]
fn par_filter_rows(data: &[Vec<String>], col: usize, qlow: &Vec<char>) -> (r: Vec<usize>)
    ensures
        r@.map_values(|x: usize| x as int) == spec_mem_matches(mem_rows_view(data@), 0, col as int, qlow@),
{
    data.par_iter()
        .enumerate()
        .filter_map(|(idx, row)| if row_col_contains(row, col, qlow) {
            Some(idx)
        } else {
            None
        })
        .collect()
}

/// Case-insensitive substring search over in-memory rows, one column,
/// fanned out to the worker pool: the ascending ids of the rows whose cell
/// in `column_idx` contains `query`, both sides lowercased.
pub fn search_parallel(data: &[Vec<String>], column_idx: usize, query: &str) -> (r: Vec<usize>)
    ensures
        r@.map_values(|x: usize| x as int) == spec_mem_matches(
            mem_rows_view(data@),
            0,
            column_idx as int,
            lower_of(query@),
        ),
{
    let low = to_lowercase(query);
    let qlow = chars_vec(low.as_str());
    par_filter_rows(data, column_idx, &qlow)
}

} // verus!
