//! The record grammar: how a byte stream splits into records and fields
//! under a dialect (delimiter, quote, optional escape, terminator).
//!
//! A field is quoted when its first byte is the quote byte; inside a quoted
//! field two adjacent quotes stand for one literal quote, and the escape
//! byte (when configured) makes the next byte literal. Bytes between a
//! closing quote and the next delimiter or terminator are taken literally.
//! Blank lines separate records and never form a record of their own.

use vstd::prelude::*;

use crate::dialect::LineEnding;

verus! {

pub const LF: u8 = 10;

pub const CR: u8 = 13;

/// Length in bytes of the record terminator found at position `i`
/// (0 when no terminator starts there).
pub open spec fn spec_term_len(data: Seq<u8>, i: int, e: LineEnding) -> int {
    if 0 <= i < data.len() {
        match e {
            LineEnding::Lf => if data[i] == LF {
                1int
            } else {
                0int
            },
            LineEnding::Cr => if data[i] == CR {
                1int
            } else {
                0int
            },
            _ => {
                if data[i] == CR {
                    if i + 1 < data.len() && data[i + 1] == LF {
                        2int
                    } else {
                        1int
                    }
                } else if data[i] == LF {
                    1int
                } else {
                    0int
                }
            },
        }
    } else {
        0int
    }
}

/// A byte sequence view of a list of byte vectors.
pub open spec fn rows_bytes_view(v: Vec<Vec<u8>>) -> Seq<Seq<u8>> {
    Seq::new(v@.len(), |k: int| v@[k]@)
}

pub fn term_len_at(data: &[u8], i: usize, e: LineEnding) -> (r: usize)
    requires
        i <= data@.len(),
    ensures
        r == spec_term_len(data@, i as int, e),
        i + r <= data@.len(),
{
    if i == data.len() {
        return 0;
    }
    let b = data[i];
    match e {
        LineEnding::Lf => if b == LF {
            1
        } else {
            0
        },
        LineEnding::Cr => if b == CR {
            1
        } else {
            0
        },
        _ => {
            if b == CR {
                if i + 1 < data.len() && data[i + 1] == LF {
                    2
                } else {
                    1
                }
            } else if b == LF {
                1
            } else {
                0
            }
        },
    }
}

/// Scanner mode within one record.
#[derive(Clone, Copy, Debug, PartialEq, Eq, Structural)]
pub enum ScanState {
    /// At the first byte of a field: a quote here opens a quoted field.
    Start,
    /// Inside an unquoted field.
    Unquoted,
    /// Inside a quoted field.
    Quoted,
    /// After the closing quote, before the next delimiter or terminator.
    QuotedEnd,
}

/// One record scanned from position `i` in mode `st`, with `cur` the bytes
/// of the open field and `acc` the closed fields: the record's fields and
/// the position just past its terminator (or the end of input).
pub open spec fn spec_scan(
    data: Seq<u8>,
    i: int,
    delim: u8,
    quote: u8,
    esc: Option<u8>,
    e: LineEnding,
    st: ScanState,
    cur: Seq<u8>,
    acc: Seq<Seq<u8>>,
) -> (Seq<Seq<u8>>, int)
    decreases data.len() - i,
{
    if !(0 <= i < data.len()) {
        (acc.push(cur), i)
    } else {
        let b = data[i];
        if st == ScanState::Quoted {
            if esc is Some && b == esc->0 && i + 1 < data.len() {
                spec_scan(data, i + 2, delim, quote, esc, e, st, cur.push(data[i + 1]), acc)
            } else if b == quote {
                if i + 1 < data.len() && data[i + 1] == quote {
                    spec_scan(data, i + 2, delim, quote, esc, e, st, cur.push(quote), acc)
                } else {
                    spec_scan(data, i + 1, delim, quote, esc, e, ScanState::QuotedEnd, cur, acc)
                }
            } else {
                spec_scan(data, i + 1, delim, quote, esc, e, st, cur.push(b), acc)
            }
        } else {
            let t = spec_term_len(data, i, e);
            if t > 0 {
                (acc.push(cur), i + t)
            } else if b == delim {
                spec_scan(data, i + 1, delim, quote, esc, e, ScanState::Start, Seq::empty(), acc.push(cur))
            } else if st == ScanState::Start && b == quote {
                spec_scan(data, i + 1, delim, quote, esc, e, ScanState::Quoted, cur, acc)
            } else if st == ScanState::QuotedEnd {
                spec_scan(data, i + 1, delim, quote, esc, e, st, cur.push(b), acc)
            } else {
                spec_scan(data, i + 1, delim, quote, esc, e, ScanState::Unquoted, cur.push(b), acc)
            }
        }
    }
}

/// The scan stays within the input, always makes progress, and always
/// closes at least the open field.
pub proof fn lemma_scan_bounds(
    data: Seq<u8>,
    i: int,
    delim: u8,
    quote: u8,
    esc: Option<u8>,
    e: LineEnding,
    st: ScanState,
    cur: Seq<u8>,
    acc: Seq<Seq<u8>>,
)
    requires
        0 <= i <= data.len(),
    ensures
        ({
            let (fs, end) = spec_scan(data, i, delim, quote, esc, e, st, cur, acc);
            &&& i <= end <= data.len()
            &&& (i < data.len() ==> i < end)
            &&& fs.len() >= acc.len() + 1
        }),
    decreases data.len() - i,
{
    if 0 <= i < data.len() {
        let b = data[i];
        if st == ScanState::Quoted {
            if esc is Some && b == esc->0 && i + 1 < data.len() {
                lemma_scan_bounds(data, i + 2, delim, quote, esc, e, st, cur.push(data[i + 1]), acc);
            } else if b == quote {
                if i + 1 < data.len() && data[i + 1] == quote {
                    lemma_scan_bounds(data, i + 2, delim, quote, esc, e, st, cur.push(quote), acc);
                } else {
                    lemma_scan_bounds(data, i + 1, delim, quote, esc, e, ScanState::QuotedEnd, cur, acc);
                }
            } else {
                lemma_scan_bounds(data, i + 1, delim, quote, esc, e, st, cur.push(b), acc);
            }
        } else {
            let t = spec_term_len(data, i, e);
            if t > 0 {
                assert(t == 1 || t == 2);
                assert(t == 2 ==> i + 1 < data.len());
                assert(i + t <= data.len());
            } else if b == delim {
                lemma_scan_bounds(
                    data,
                    i + 1,
                    delim,
                    quote,
                    esc,
                    e,
                    ScanState::Start,
                    Seq::empty(),
                    acc.push(cur),
                );
            } else if st == ScanState::Start && b == quote {
                lemma_scan_bounds(data, i + 1, delim, quote, esc, e, ScanState::Quoted, cur, acc);
            } else if st == ScanState::QuotedEnd {
                lemma_scan_bounds(data, i + 1, delim, quote, esc, e, st, cur.push(b), acc);
            } else {
                lemma_scan_bounds(data, i + 1, delim, quote, esc, e, ScanState::Unquoted, cur.push(b), acc);
            }
        }
    }
}

/// Position of the first byte at or after `i` that does not begin a
/// terminator: blank lines in front of a record are skipped.
pub open spec fn spec_skip_blanks(data: Seq<u8>, i: int, e: LineEnding) -> int
    decreases data.len() - i,
{
    if 0 <= i < data.len() && spec_term_len(data, i, e) > 0 {
        spec_skip_blanks(data, i + spec_term_len(data, i, e), e)
    } else {
        i
    }
}

pub proof fn lemma_skip_blanks_bounds(data: Seq<u8>, i: int, e: LineEnding)
    requires
        0 <= i <= data.len(),
    ensures
        i <= spec_skip_blanks(data, i, e) <= data.len(),
    decreases data.len() - i,
{
    if 0 <= i < data.len() && spec_term_len(data, i, e) > 0 {
        lemma_skip_blanks_bounds(data, i + spec_term_len(data, i, e), e);
    }
}

/// The record that starts at `pos`, with the scan position just past it;
/// `None` when only blank lines remain.
pub open spec fn spec_next_record(
    data: Seq<u8>,
    pos: int,
    delim: u8,
    quote: u8,
    esc: Option<u8>,
    e: LineEnding,
) -> Option<(Seq<Seq<u8>>, int)> {
    let p = spec_skip_blanks(data, pos, e);
    if p >= data.len() {
        None
    } else {
        Some(spec_scan(data, p, delim, quote, esc, e, ScanState::Start, Seq::empty(), Seq::empty()))
    }
}

/// A record parsed at a valid position lies within the input, moves the
/// scan forward, and has at least one field.
pub proof fn lemma_next_record_bounds(
    data: Seq<u8>,
    pos: int,
    delim: u8,
    quote: u8,
    esc: Option<u8>,
    e: LineEnding,
)
    requires
        0 <= pos <= data.len(),
    ensures
        match spec_next_record(data, pos, delim, quote, esc, e) {
            Some((fs, end)) => pos < end <= data.len() && fs.len() >= 1,
            None => true,
        },
{
    lemma_skip_blanks_bounds(data, pos, e);
    let p = spec_skip_blanks(data, pos, e);
    if p < data.len() {
        lemma_scan_bounds(
            data,
            p,
            delim,
            quote,
            esc,
            e,
            ScanState::Start,
            Seq::empty(),
            Seq::empty(),
        );
    }
}

/// Parse the record that starts at `pos`, skipping leading blank lines:
/// the exact executable counterpart of [`spec_next_record`].
pub fn next_record(
    data: &[u8],
    pos: usize,
    delim: u8,
    quote: u8,
    esc: Option<u8>,
    e: LineEnding,
) -> (r: Option<(Vec<Vec<u8>>, usize)>)
    requires
        pos <= data@.len(),
    ensures
        match (r, spec_next_record(data@, pos as int, delim, quote, esc, e)) {
            (None, None) => true,
            (Some(rr), Some(sr)) => rows_bytes_view(rr.0) == sr.0 && rr.1 == sr.1,
            _ => false,
        },
{
    let n: usize = data.len();
    let mut p = pos;
    loop
        invariant
            n == data@.len(),
            pos <= p <= data@.len(),
            spec_skip_blanks(data@, pos as int, e) == spec_skip_blanks(data@, p as int, e),
        ensures
            pos <= p <= data@.len(),
            spec_skip_blanks(data@, pos as int, e) == p as int,
        decreases data@.len() - p,
    {
        let t = term_len_at(data, p, e);
        if t == 0 {
            assert(spec_skip_blanks(data@, p as int, e) == p as int);
            break ;
        }
        p = p + t;
    }
    if p == data.len() {
        return None;
    }
    let ghost start = p as int;
    let mut i = p;
    let mut st = ScanState::Start;
    let mut cur: Vec<u8> = Vec::new();
    let mut acc: Vec<Vec<u8>> = Vec::new();
    assert(rows_bytes_view(acc) =~= Seq::<Seq<u8>>::empty());
    assert(cur@ =~= Seq::<u8>::empty());
    let end: usize;
    loop
        invariant
            start <= i <= data@.len(),
            0 <= start < data@.len(),
            spec_scan(data@, start, delim, quote, esc, e, ScanState::Start, Seq::empty(), Seq::empty())
                == spec_scan(data@, i as int, delim, quote, esc, e, st, cur@, rows_bytes_view(acc)),
        ensures
            ({
                let (sfs, send) = spec_scan(
                    data@,
                    start,
                    delim,
                    quote,
                    esc,
                    e,
                    ScanState::Start,
                    Seq::empty(),
                    Seq::empty(),
                );
                sfs == rows_bytes_view(acc).push(cur@) && send == end as int
            }),
        decreases data@.len() - i,
    {
        if i == data.len() {
            end = i;
            break ;
        }
        let b = data[i];
        if st == ScanState::Quoted {
            if esc.is_some() && b == esc.unwrap() && i + 1 < data.len() {
                cur.push(data[i + 1]);
                i = i + 2;
            } else if b == quote {
                if i + 1 < data.len() && data[i + 1] == quote {
                    cur.push(quote);
                    i = i + 2;
                } else {
                    st = ScanState::QuotedEnd;
                    i = i + 1;
                }
            } else {
                cur.push(b);
                i = i + 1;
            }
        } else {
            let t = term_len_at(data, i, e);
            if t > 0 {
                end = i + t;
                break ;
            } else if b == delim {
                let ghost pre = rows_bytes_view(acc);
                let ghost dv = cur@;
                let done = cur;
                cur = Vec::new();
                acc.push(done);
                st = ScanState::Start;
                i = i + 1;
                assert(rows_bytes_view(acc) =~= pre.push(dv));
                assert(cur@ =~= Seq::<u8>::empty());
            } else if st == ScanState::Start && b == quote {
                st = ScanState::Quoted;
                i = i + 1;
            } else if st == ScanState::QuotedEnd {
                cur.push(b);
                i = i + 1;
            } else {
                st = ScanState::Unquoted;
                cur.push(b);
                i = i + 1;
            }
        }
    }
    let ghost final_fields = rows_bytes_view(acc).push(cur@);
    acc.push(cur);
    assert(rows_bytes_view(acc) =~= final_fields);
    Some((acc, end))
}

} // verus!
