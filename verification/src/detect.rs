//! Dialect detection over a head sample: encoding (with byte-order-mark
//! priority), line ending, quote, delimiter, escape, and the header-row
//! heuristic, all decided from the first bytes of the file.

use vstd::prelude::*;

use crate::dialect::LineEnding;
use crate::record::{CR, LF};
use crate::text::{
    alphabetic_of, char_is_alphabetic, chars_vec, contains_chars, contains_seq, decode_field,
    decoded_text, eq_chars,
};

verus! {

/// Terminator counts `(crlf, lf, cr)` from position `i` of the raw sample.
pub open spec fn spec_le_counts(s: Seq<u8>, i: int) -> (int, int, int)
    decreases s.len() - i,
{
    if !(0 <= i < s.len()) {
        (0int, 0int, 0int)
    } else if s[i] == CR && i + 1 < s.len() && s[i + 1] == LF {
        let r = spec_le_counts(s, i + 2);
        (r.0 + 1, r.1, r.2)
    } else if s[i] == CR {
        let r = spec_le_counts(s, i + 1);
        (r.0, r.1, r.2 + 1)
    } else if s[i] == LF {
        let r = spec_le_counts(s, i + 1);
        (r.0, r.1 + 1, r.2)
    } else {
        spec_le_counts(s, i + 1)
    }
}

/// The detected line ending: the most frequent terminator, ties broken
/// CRLF over LF over CR.
pub open spec fn spec_detect_line_ending(s: Seq<u8>) -> LineEnding {
    let c = spec_le_counts(s, 0);
    if c.0 >= c.1 && c.0 >= c.2 {
        LineEnding::Crlf
    } else if c.1 >= c.2 {
        LineEnding::Lf
    } else {
        LineEnding::Cr
    }
}

/// Count terminators and pick the dominant convention.
pub fn detect_line_ending(sample: &[u8]) -> (r: LineEnding)
    ensures
        r == spec_detect_line_ending(sample@),
{
    let n = sample.len();
    let mut crlf: usize = 0;
    let mut lf: usize = 0;
    let mut cr: usize = 0;
    let mut i: usize = 0;
    while i < n
        invariant
            0 <= i <= n,
            n == sample@.len(),
            crlf + lf + cr <= i,
            spec_le_counts(sample@, 0) == (
                crlf + spec_le_counts(sample@, i as int).0,
                lf + spec_le_counts(sample@, i as int).1,
                cr + spec_le_counts(sample@, i as int).2,
            ),
        decreases n - i,
    {
        if sample[i] == CR {
            if i + 1 < n && sample[i + 1] == LF {
                crlf = crlf + 1;
                i = i + 2;
            } else {
                cr = cr + 1;
                i = i + 1;
            }
        } else if sample[i] == LF {
            lf = lf + 1;
            i = i + 1;
        } else {
            i = i + 1;
        }
    }
    if crlf >= lf && crlf >= cr {
        LineEnding::Crlf
    } else if lf >= cr {
        LineEnding::Lf
    } else {
        LineEnding::Cr
    }
}

/// Occurrences of `c` in `s` from position `i`.
pub open spec fn spec_count_char(s: Seq<char>, i: int, c: char) -> int
    decreases s.len() - i,
{
    if !(0 <= i < s.len()) {
        0int
    } else {
        (if s[i] == c {
            1int
        } else {
            0int
        }) + spec_count_char(s, i + 1, c)
    }
}

/// Count occurrences of one character.
pub fn count_char(s: &Vec<char>, c: char) -> (r: usize)
    ensures
        r == spec_count_char(s@, 0, c),
{
    let mut i: usize = 0;
    let mut count: usize = 0;
    while i < s.len()
        invariant
            0 <= i <= s@.len(),
            count <= i,
            spec_count_char(s@, 0, c) == count + spec_count_char(s@, i as int, c),
        decreases s@.len() - i,
    {
        if s[i] == c {
            count = count + 1;
        }
        i = i + 1;
    }
    count
}

/// The detected quote byte: a double quote when present and not dominated
/// by single quotes; else a single quote when present; else a double quote.
pub open spec fn spec_detect_quote(s: Seq<char>) -> u8 {
    let d = spec_count_char(s, 0, '"');
    let g = spec_count_char(s, 0, '\'');
    if d > 0 && d >= g {
        34u8
    } else if g > 0 {
        39u8
    } else {
        34u8
    }
}

pub fn detect_quote_char(sample: &Vec<char>) -> (r: u8)
    ensures
        r == spec_detect_quote(sample@),
{
    let double_count = count_char(sample, '"');
    let single_count = count_char(sample, '\'');
    if double_count > 0 && double_count >= single_count {
        34u8
    } else if single_count > 0 {
        39u8
    } else {
        34u8
    }
}

/// An ASCII whitespace character.
pub open spec fn spec_is_ws(c: char) -> bool {
    c == ' ' || c == '\t' || c == '\r' || c == '\n'
}

/// A line with nothing but whitespace.
pub open spec fn spec_blank(s: Seq<char>) -> bool {
    forall|k: int| 0 <= k < s.len() ==> spec_is_ws(#[trigger] s[k])
}

pub fn is_blank(line: &Vec<char>) -> (r: bool)
    ensures
        r == spec_blank(line@),
{
    let mut i: usize = 0;
    while i < line.len()
        invariant
            0 <= i <= line@.len(),
            forall|k: int| 0 <= k < i ==> spec_is_ws(#[trigger] line@[k]),
        decreases line@.len() - i,
    {
        let c = line[i];
        if !(c == ' ' || c == '\t' || c == '\r' || c == '\n') {
            assert(!spec_is_ws(line@[i as int]));
            return false;
        }
        i = i + 1;
    }
    true
}

/// Quote-aware field count of one line from position `i`: `None` when the
/// line ends inside a quoted field.
pub open spec fn spec_count_fields_rec(
    s: Seq<char>,
    i: int,
    in_q: bool,
    cnt: int,
    delim: char,
    quote: char,
) -> Option<int>
    decreases s.len() - i,
{
    if !(0 <= i < s.len()) {
        if in_q {
            Option::None
        } else {
            Option::Some(cnt)
        }
    } else if s[i] == quote {
        if in_q && i + 1 < s.len() && s[i + 1] == quote {
            spec_count_fields_rec(s, i + 2, in_q, cnt, delim, quote)
        } else {
            spec_count_fields_rec(s, i + 1, !in_q, cnt, delim, quote)
        }
    } else if s[i] == delim && !in_q {
        spec_count_fields_rec(s, i + 1, in_q, cnt + 1, delim, quote)
    } else {
        spec_count_fields_rec(s, i + 1, in_q, cnt, delim, quote)
    }
}

/// Field count of a sample line under a candidate delimiter, `None` for a
/// blank line or an unterminated quote.
pub open spec fn spec_count_fields(s: Seq<char>, delim: char, quote: char) -> Option<int> {
    if spec_blank(s) {
        Option::None
    } else {
        spec_count_fields_rec(s, 0, false, 1, delim, quote)
    }
}

pub fn count_fields(line: &Vec<char>, delim: char, quote: char) -> (r: Option<u128>)
    ensures
        match (r, spec_count_fields(line@, delim, quote)) {
            (Option::None, Option::None) => true,
            (Option::Some(a), Option::Some(b)) => a as int == b,
            _ => false,
        },
{
    if is_blank(line) {
        return None;
    }
    let mut i: usize = 0;
    let mut in_q = false;
    let mut cnt: u128 = 1;
    while i < line.len()
        invariant
            0 <= i <= line@.len(),
            1 <= cnt <= i + 1,
            spec_count_fields_rec(line@, 0, false, 1, delim, quote) == spec_count_fields_rec(
                line@,
                i as int,
                in_q,
                cnt as int,
                delim,
                quote,
            ),
        decreases line@.len() - i,
    {
        let c = line[i];
        if c == quote {
            if in_q && i + 1 < line.len() && line[i + 1] == quote {
                i = i + 2;
            } else {
                in_q = !in_q;
                i = i + 1;
            }
        } else if c == delim && !in_q {
            cnt = cnt + 1;
            i = i + 1;
        } else {
            i = i + 1;
        }
    }
    if in_q {
        None
    } else {
        Some(cnt)
    }
}

/// A line with one trailing carriage return removed.
pub open spec fn spec_strip_cr(s: Seq<char>) -> Seq<char> {
    if s.len() > 0 && s.last() == '\r' {
        s.drop_last()
    } else {
        s
    }
}

/// The sample split at newlines, each line stripped of a trailing `\r`.
pub open spec fn spec_lines_rec(s: Seq<char>, i: int, cur: Seq<char>, acc: Seq<Seq<char>>) -> Seq<
    Seq<char>,
>
    decreases s.len() - i,
{
    if !(0 <= i < s.len()) {
        acc.push(spec_strip_cr(cur))
    } else if s[i] == '\n' {
        spec_lines_rec(s, i + 1, Seq::empty(), acc.push(spec_strip_cr(cur)))
    } else {
        spec_lines_rec(s, i + 1, cur.push(s[i]), acc)
    }
}

pub open spec fn spec_lines(s: Seq<char>) -> Seq<Seq<char>> {
    spec_lines_rec(s, 0, Seq::empty(), Seq::empty())
}

/// The view of split lines.
pub open spec fn lines_view(v: Vec<Vec<char>>) -> Seq<Seq<char>> {
    Seq::new(v@.len(), |k: int| v@[k]@)
}

/// Split the decoded sample into lines.
pub fn split_lines(s: &Vec<char>) -> (r: Vec<Vec<char>>)
    ensures
        lines_view(r) == spec_lines(s@),
{
    let mut acc: Vec<Vec<char>> = Vec::new();
    let mut cur: Vec<char> = Vec::new();
    let mut i: usize = 0;
    assert(lines_view(acc) =~= Seq::<Seq<char>>::empty());
    assert(cur@ =~= Seq::<char>::empty());
    while i < s.len()
        invariant
            0 <= i <= s@.len(),
            spec_lines(s@) == spec_lines_rec(s@, i as int, cur@, lines_view(acc)),
        decreases s@.len() - i,
    {
        let c = s[i];
        if c == '\n' {
            let ghost pre = lines_view(acc);
            let ghost cv = cur@;
            let mut done = cur;
            if done.len() > 0 && done[done.len() - 1] == '\r' {
                done.pop();
                assert(done@ =~= spec_strip_cr(cv));
            } else {
                assert(done@ =~= spec_strip_cr(cv));
            }
            let ghost dv = done@;
            acc.push(done);
            cur = Vec::new();
            proof {
                assert(lines_view(acc) =~= pre.push(dv));
                assert(cur@ =~= Seq::<char>::empty());
            }
        } else {
            cur.push(c);
        }
        i = i + 1;
    }
    let ghost pre = lines_view(acc);
    let ghost cv = cur@;
    let mut done = cur;
    if done.len() > 0 && done[done.len() - 1] == '\r' {
        done.pop();
        assert(done@ =~= spec_strip_cr(cv));
    } else {
        assert(done@ =~= spec_strip_cr(cv));
    }
    let ghost dv = done@;
    acc.push(done);
    proof {
        assert(lines_view(acc) =~= pre.push(dv));
    }
    acc
}

/// Up to twenty non-blank lines, in order, from position `i`.
pub open spec fn spec_picked_rec(lines: Seq<Seq<char>>, i: int, room: int) -> Seq<Seq<char>>
    decreases lines.len() - i,
{
    if !(0 <= i < lines.len()) || room <= 0 {
        Seq::empty()
    } else if spec_blank(lines[i]) {
        spec_picked_rec(lines, i + 1, room)
    } else {
        seq![lines[i]] + spec_picked_rec(lines, i + 1, room - 1)
    }
}

pub open spec fn spec_picked(lines: Seq<Seq<char>>) -> Seq<Seq<char>> {
    spec_picked_rec(lines, 0, 20)
}

/// A copy of a character vector.
pub fn copy_chars(v: &Vec<char>) -> (r: Vec<char>)
    ensures
        r@ == v@,
{
    let mut out: Vec<char> = Vec::new();
    out.extend_from_slice(v.as_slice());
    proof {
        assert(out@ =~= v@);
    }
    out
}

/// Collect up to twenty non-blank sample lines.
pub fn pick_lines(lines: &Vec<Vec<char>>) -> (r: Vec<Vec<char>>)
    ensures
        lines_view(r) == spec_picked(lines_view(*lines)),
{
    let ghost lv = lines_view(*lines);
    let mut out: Vec<Vec<char>> = Vec::new();
    let mut i: usize = 0;
    assert(lines_view(out) =~= Seq::<Seq<char>>::empty());
    let n = lines.len();
    while i < n
        invariant
            0 <= i <= n,
            n == lines@.len(),
            lv == lines_view(*lines),
            lines_view(out).len() <= 20,
            spec_picked(lv) == lines_view(out) + spec_picked_rec(
                lv,
                i as int,
                20 - lines_view(out).len(),
            ),
        decreases n - i,
    {
        if out.len() >= 20 {
            proof {
                assert(spec_picked_rec(lv, i as int, 20 - lines_view(out).len()) =~= Seq::<
                    Seq<char>,
                >::empty());
                assert(lines_view(out) + Seq::<Seq<char>>::empty() =~= lines_view(out));
            }
            return out;
        }
        let ghost pre = lines_view(out);
        let line = copy_chars(&lines[i]);
        assert(line@ == lv[i as int]);
        if !is_blank(&line) {
            let ghost lvv = line@;
            out.push(line);
            proof {
                assert(lines_view(out) =~= pre.push(lvv));
                let rest = spec_picked_rec(lv, i + 1, 20 - pre.len() - 1);
                assert(pre + (seq![lvv] + rest) =~= pre.push(lvv) + rest);
            }
        }
        i = i + 1;
    }
    proof {
        assert(spec_picked_rec(lv, n as int, 20 - lines_view(out).len()) =~= Seq::<
            Seq<char>,
        >::empty());
        assert(lines_view(out) + Seq::<Seq<char>>::empty() =~= lines_view(out));
    }
    out
}

/// Occurrences of a field count among the counted lines.
pub open spec fn spec_freq(counts: Seq<u128>, i: int, v: u128) -> int
    decreases counts.len() - i,
{
    if !(0 <= i < counts.len()) {
        0int
    } else {
        (if counts[i] == v {
            1int
        } else {
            0int
        }) + spec_freq(counts, i + 1, v)
    }
}

fn freq_of(counts: &Vec<u128>, v: u128) -> (r: usize)
    ensures
        r == spec_freq(counts@, 0, v),
{
    let mut i: usize = 0;
    let mut f: usize = 0;
    while i < counts.len()
        invariant
            0 <= i <= counts@.len(),
            f <= i,
            spec_freq(counts@, 0, v) == f + spec_freq(counts@, i as int, v),
        decreases counts@.len() - i,
    {
        if counts[i] == v {
            f = f + 1;
        }
        i = i + 1;
    }
    f
}

/// The modal field count with its frequency, ties broken by the larger
/// count, scanned in order.
pub open spec fn spec_best_mode(counts: Seq<u128>, j: int, bc: u128, bf: int) -> (u128, int)
    decreases counts.len() - j,
{
    if !(0 <= j < counts.len()) {
        (bc, bf)
    } else {
        let c = counts[j];
        let f = spec_freq(counts, 0, c);
        if f > bf || (f == bf && c > bc) {
            spec_best_mode(counts, j + 1, c, f)
        } else {
            spec_best_mode(counts, j + 1, bc, bf)
        }
    }
}

/// The field counts of the sample lines under one candidate delimiter.
pub open spec fn spec_counts_of(lines: Seq<Seq<char>>, i: int, delim: char, quote: char) -> Seq<
    u128,
>
    decreases lines.len() - i,
{
    if !(0 <= i < lines.len()) {
        Seq::empty()
    } else {
        let rest = spec_counts_of(lines, i + 1, delim, quote);
        match spec_count_fields(lines[i], delim, quote) {
            Option::Some(c) => seq![
                (if 0 <= c <= u128::MAX {
                    c as u128
                } else {
                    0u128
                }),
            ] + rest,
            Option::None => rest,
        }
    }
}

/// One candidate's `(modal count, frequency)`: `(0, 0)` when fewer than two
/// lines could be counted.
pub open spec fn spec_candidate(lines: Seq<Seq<char>>, delim: char, quote: char) -> (u128, int) {
    let counts = spec_counts_of(lines, 0, delim, quote);
    if counts.len() < 2 {
        (0u128, 0int)
    } else {
        spec_best_mode(counts, 0, 0u128, 0int)
    }
}

fn evaluate_candidate(lines: &Vec<Vec<char>>, delim: char, quote: char) -> (r: (u128, usize))
    ensures
        (r.0, r.1 as int) == spec_candidate(lines_view(*lines), delim, quote),
{
    let ghost lv = lines_view(*lines);
    let mut counts: Vec<u128> = Vec::new();
    let mut i: usize = 0;
    assert(counts@ =~= Seq::<u128>::empty());
    while i < lines.len()
        invariant
            0 <= i <= lines@.len(),
            lv == lines_view(*lines),
            spec_counts_of(lv, 0, delim, quote) == counts@ + spec_counts_of(
                lv,
                i as int,
                delim,
                quote,
            ),
        decreases lines@.len() - i,
    {
        let ghost pre = counts@;
        let ghost rest = spec_counts_of(lv, i + 1, delim, quote);
        match count_fields(&lines[i], delim, quote) {
            Some(c) => {
                counts.push(c);
                proof {
                    assert(lv[i as int] == lines@[i as int]@);
                    assert(spec_count_fields(lv[i as int], delim, quote) matches Option::Some(b)
                        && c as int == b);
                    assert(pre + (seq![c] + rest) =~= pre.push(c) + rest);
                }
            },
            None => {
                proof {
                    assert(lv[i as int] == lines@[i as int]@);
                }
            },
        }
        i = i + 1;
    }
    proof {
        assert(spec_counts_of(lv, lines@.len() as int, delim, quote) =~= Seq::<u128>::empty());
        assert(counts@ + Seq::<u128>::empty() =~= counts@);
    }
    if counts.len() < 2 {
        return (0u128, 0usize);
    }
    let mut j: usize = 0;
    let mut bc: u128 = 0;
    let mut bf: usize = 0;
    while j < counts.len()
        invariant
            0 <= j <= counts@.len(),
            bf <= counts@.len(),
            spec_best_mode(counts@, 0, 0u128, 0int) == spec_best_mode(
                counts@,
                j as int,
                bc,
                bf as int,
            ),
        decreases counts@.len() - j,
    {
        let c = counts[j];
        let f = freq_of(&counts, c);
        proof {
            lemma_freq_bound(counts@, 0, c);
        }
        if f > bf || (f == bf && c > bc) {
            bc = c;
            bf = f;
        }
        j = j + 1;
    }
    (bc, bf)
}

proof fn lemma_freq_bound(counts: Seq<u128>, i: int, v: u128)
    requires
        0 <= i <= counts.len(),
    ensures
        spec_freq(counts, i, v) <= counts.len() - i,
    decreases counts.len() - i,
{
    if i < counts.len() {
        lemma_freq_bound(counts, i + 1, v);
    }
}

/// Fold one candidate into the best so far: it wins when its mode is above
/// one and strictly more frequent.
pub open spec fn spec_pick_delim(best: (u8, u128, int), cand: u8, m: (u128, int)) -> (
    u8,
    u128,
    int,
) {
    if m.0 > 1 && m.1 > best.2 {
        (cand, m.0, m.1)
    } else {
        best
    }
}

/// The detected delimiter over the picked sample lines: the candidate among
/// comma, tab, semicolon and pipe with the highest frequency at its modal
/// field count, tried in that order; comma when none qualifies.
pub open spec fn spec_detect_delimiter(lines: Seq<Seq<char>>, quote: char) -> u8 {
    let b0 = (44u8, 0u128, 0int);
    let b1 = spec_pick_delim(b0, 44u8, spec_candidate(lines, ',', quote));
    let b2 = spec_pick_delim(b1, 9u8, spec_candidate(lines, '\t', quote));
    let b3 = spec_pick_delim(b2, 59u8, spec_candidate(lines, ';', quote));
    let b4 = spec_pick_delim(b3, 124u8, spec_candidate(lines, '|', quote));
    b4.0
}

pub fn detect_delimiter(lines: &Vec<Vec<char>>, quote: char) -> (r: u8)
    ensures
        r == spec_detect_delimiter(lines_view(*lines), quote),
{
    let mut best_d: u8 = 44;
    let mut best_c: u128 = 0;
    let mut best_f: usize = 0;
    let m1 = evaluate_candidate(lines, ',', quote);
    if m1.0 > 1 && m1.1 > best_f {
        best_d = 44;
        best_c = m1.0;
        best_f = m1.1;
    }
    let m2 = evaluate_candidate(lines, '\t', quote);
    if m2.0 > 1 && m2.1 > best_f {
        best_d = 9;
        best_c = m2.0;
        best_f = m2.1;
    }
    let m3 = evaluate_candidate(lines, ';', quote);
    if m3.0 > 1 && m3.1 > best_f {
        best_d = 59;
        best_c = m3.0;
        best_f = m3.1;
    }
    let m4 = evaluate_candidate(lines, '|', quote);
    if m4.0 > 1 && m4.1 > best_f {
        best_d = 124;
        best_c = m4.0;
        best_f = m4.1;
    }
    best_d
}

pub open spec fn spec_is_digit(c: char) -> bool {
    '0' <= c && c <= '9'
}

/// Digits to the end of the input.
pub open spec fn spec_digits0(t: Seq<char>, i: int) -> bool
    decreases t.len() - i,
{
    if !(0 <= i < t.len()) {
        true
    } else {
        spec_is_digit(t[i]) && spec_digits0(t, i + 1)
    }
}

/// The exponent tail: an optional sign then at least one digit.
pub open spec fn spec_exp_part(t: Seq<char>, i: int) -> bool {
    let j = if 0 <= i < t.len() && (t[i] == '+' || t[i] == '-') {
        i + 1
    } else {
        i
    };
    j < t.len() && spec_is_digit(t[j]) && spec_digits0(t, j)
}

/// The fractional part after the decimal point.
pub open spec fn spec_frac_part(t: Seq<char>, i: int, seen_digit: bool) -> bool
    decreases t.len() - i,
{
    if !(0 <= i < t.len()) {
        seen_digit
    } else if spec_is_digit(t[i]) {
        spec_frac_part(t, i + 1, true)
    } else if (t[i] == 'e' || t[i] == 'E') && seen_digit {
        spec_exp_part(t, i + 1)
    } else {
        false
    }
}

/// The mantissa from position `i`.
pub open spec fn spec_mantissa(t: Seq<char>, i: int, seen_digit: bool) -> bool
    decreases t.len() - i,
{
    if !(0 <= i < t.len()) {
        seen_digit
    } else if spec_is_digit(t[i]) {
        spec_mantissa(t, i + 1, true)
    } else if t[i] == '.' {
        spec_frac_part(t, i + 1, seen_digit)
    } else if (t[i] == 'e' || t[i] == 'E') && seen_digit {
        spec_exp_part(t, i + 1)
    } else {
        false
    }
}

/// Leading whitespace length.
pub open spec fn spec_ws_prefix(s: Seq<char>, i: int) -> int
    decreases s.len() - i,
{
    if 0 <= i < s.len() && spec_is_ws(s[i]) {
        spec_ws_prefix(s, i + 1)
    } else {
        i
    }
}

/// Position after trimming trailing whitespace.
pub open spec fn spec_trim_end(s: Seq<char>, i: int) -> int
    decreases i,
{
    if i > 0 && i <= s.len() && spec_is_ws(s[i - 1]) {
        spec_trim_end(s, i - 1)
    } else {
        i
    }
}

/// A cell that reads as a number: optional sign, digits with an optional
/// decimal point, and an optional exponent, ignoring surrounding whitespace.
pub open spec fn spec_is_numeric(s: Seq<char>) -> bool {
    let a = spec_ws_prefix(s, 0);
    let e0 = spec_trim_end(s, s.len() as int);
    let e = if e0 < a {
        a
    } else {
        e0
    };
    let t = s.subrange(a, e);
    t.len() > 0 && (if t[0] == '+' || t[0] == '-' {
        spec_mantissa(t, 1, false)
    } else {
        spec_mantissa(t, 0, false)
    })
}

/// ASCII whitespace test.
pub fn is_ws_char(c: char) -> (r: bool)
    ensures
        r == spec_is_ws(c),
{
    c == ' ' || c == '\t' || c == '\r' || c == '\n'
}

/// The cell with surrounding whitespace removed.
pub open spec fn spec_trim(s: Seq<char>) -> Seq<char> {
    let a = spec_ws_prefix(s, 0);
    let e0 = spec_trim_end(s, s.len() as int);
    let e = if e0 < a {
        a
    } else {
        e0
    };
    s.subrange(a, e)
}

/// Trim surrounding whitespace.
pub fn trim_chars(v: &Vec<char>) -> (r: Vec<char>)
    ensures
        r@ == spec_trim(v@),
{
    let n = v.len();
    let mut a: usize = 0;
    while a < n && is_ws_char(v[a])
        invariant
            0 <= a <= n,
            n == v@.len(),
            spec_ws_prefix(v@, 0) == spec_ws_prefix(v@, a as int),
        decreases n - a,
    {
        a = a + 1;
    }
    assert(spec_ws_prefix(v@, a as int) == a as int);
    let mut b: usize = n;
    while b > a && is_ws_char(v[b - 1])
        invariant
            a <= b <= n,
            n == v@.len(),
            spec_ws_prefix(v@, 0) == a as int,
            spec_trim_end(v@, n as int) == spec_trim_end(v@, b as int),
        decreases b,
    {
        b = b - 1;
    }
    let mut out: Vec<char> = Vec::new();
    let mut i = a;
    while i < b
        invariant
            a <= i <= b <= n,
            n == v@.len(),
            out@ == v@.subrange(a as int, i as int),
        decreases b - i,
    {
        out.push(v[i]);
        i = i + 1;
        assert(out@ =~= v@.subrange(a as int, i as int));
    }
    proof {
        if b > a {
            assert(spec_trim_end(v@, b as int) == b as int);
            assert(out@ =~= spec_trim(v@));
        } else {
            lemma_trim_end_le(v@, b as int);
            assert(out@ =~= spec_trim(v@));
        }
    }
    out
}

/// Whether the cell reads as a number.
pub fn is_numeric(cell: &Vec<char>) -> (r: bool)
    ensures
        r == spec_is_numeric(cell@),
{
    let n = cell.len();
    let mut a: usize = 0;
    while a < n && is_ws_char(cell[a])
        invariant
            0 <= a <= n,
            n == cell@.len(),
            spec_ws_prefix(cell@, 0) == spec_ws_prefix(cell@, a as int),
        decreases n - a,
    {
        a = a + 1;
    }
    assert(spec_ws_prefix(cell@, a as int) == a as int);
    let mut b: usize = n;
    while b > a && is_ws_char(cell[b - 1])
        invariant
            a <= b <= n,
            n == cell@.len(),
            spec_ws_prefix(cell@, 0) == a as int,
            spec_trim_end(cell@, n as int) == spec_trim_end(cell@, b as int),
        decreases b,
    {
        b = b - 1;
    }
    let ghost e0 = spec_trim_end(cell@, n as int);
    let ghost e = if e0 < a as int {
        a as int
    } else {
        e0
    };
    let ghost t = cell@.subrange(a as int, e);
    if b <= a {
        proof {
            lemma_trim_end_le(cell@, b as int);
            assert(e == a as int);
            assert(t.len() == 0);
        }
        return false;
    }
    proof {
        assert(spec_trim_end(cell@, b as int) == b as int);
        assert(e == b as int);
        assert(t =~= cell@.subrange(a as int, b as int));
        assert(t.len() > 0);
    }
    let mut i = a;
    let c0 = cell[a];
    assert(t[0] == c0);
    if c0 == '+' || c0 == '-' {
        i = a + 1;
    }
    let ghost m0 = i - a;
    let mut seen_digit = false;
    let num_result: bool;
    loop
        invariant_except_break
            a <= i,
            i <= b,
            a < b <= n,
            n == cell@.len(),
            t == cell@.subrange(a as int, b as int),
            t.len() > 0,
            spec_mantissa(t, m0, false) == spec_mantissa(t, i - a, seen_digit),
        ensures
            spec_mantissa(t, m0, false) == num_result,
        decreases b - i,
    {
        if i >= b {
            num_result = seen_digit;
            break ;
        }
        let c = cell[i];
        assert(t[i - a] == c);
        if c >= '0' && c <= '9' {
            seen_digit = true;
            i = i + 1;
        } else if c == '.' {
            let fr = frac_from(cell, i + 1, b, a, Ghost(t), seen_digit);
            num_result = fr;
            break ;
        } else if (c == 'e' || c == 'E') && seen_digit {
            let ex = exp_from(cell, i + 1, b, a, Ghost(t));
            num_result = ex;
            break ;
        } else {
            num_result = false;
            break ;
        }
    }
    proof {
        assert(spec_is_numeric(cell@) == spec_mantissa(t, m0, false));
    }
    num_result
}

proof fn lemma_trim_end_le(s: Seq<char>, i: int)
    requires
        0 <= i,
    ensures
        spec_trim_end(s, i) <= i,
    decreases i,
{
    if i > 0 && i <= s.len() && spec_is_ws(s[i - 1]) {
        lemma_trim_end_le(s, i - 1);
    }
}

/// The fractional scan, mirrored.
fn frac_from(cell: &Vec<char>, start: usize, b: usize, a: usize, Ghost(t): Ghost<Seq<char>>, seen0: bool) -> (r: bool)
    requires
        a <= b <= cell@.len(),
        a < start,
        start <= b + 1,
        start - a <= t.len() + 1,
        t == cell@.subrange(a as int, b as int),
    ensures
        r == spec_frac_part(t, start - a, seen0),
{
    let mut i = start;
    let mut seen = seen0;
    let frac_result: bool;
    loop
        invariant_except_break
            a < start <= i,
            i <= b + 1,
            a <= b <= cell@.len(),
            t == cell@.subrange(a as int, b as int),
            spec_frac_part(t, start - a, seen0) == spec_frac_part(t, i - a, seen),
        ensures
            spec_frac_part(t, start - a, seen0) == frac_result,
        decreases b + 1 - i,
    {
        if i >= b {
            frac_result = seen;
            break ;
        }
        let c = cell[i];
        assert(t[i - a] == c);
        if c >= '0' && c <= '9' {
            seen = true;
            i = i + 1;
        } else if (c == 'e' || c == 'E') && seen {
            let ex = exp_from(cell, i + 1, b, a, Ghost(t));
            frac_result = ex;
            break ;
        } else {
            frac_result = false;
            break ;
        }
    }
    frac_result
}

/// The exponent scan, mirrored.
fn exp_from(cell: &Vec<char>, start: usize, b: usize, a: usize, Ghost(t): Ghost<Seq<char>>) -> (r:
    bool)
    requires
        a <= b <= cell@.len(),
        a < start,
        start <= b + 1,
        t == cell@.subrange(a as int, b as int),
    ensures
        r == spec_exp_part(t, start - a),
{
    let mut j = start;
    if j < b {
        let c = cell[j];
        assert(t[j - a] == c);
        if c == '+' || c == '-' {
            j = j + 1;
        }
    }
    if j >= b {
        assert(!(j - a < t.len()));
        return false;
    }
    let c = cell[j];
    assert(t[j - a] == c);
    if !(c >= '0' && c <= '9') {
        return false;
    }
    let mut i = j;
    let digits_result: bool;
    loop
        invariant_except_break
            a <= j <= i,
            i <= b,
            a <= b <= cell@.len(),
            t == cell@.subrange(a as int, b as int),
            spec_digits0(t, j - a) == spec_digits0(t, i - a),
        ensures
            spec_digits0(t, j - a) == digits_result,
        decreases b - i,
    {
        if i >= b {
            digits_result = true;
            break ;
        }
        let c = cell[i];
        assert(t[i - a] == c);
        if c >= '0' && c <= '9' {
            i = i + 1;
        } else {
            digits_result = false;
            break ;
        }
    }
    digits_result
}

/// One line split into quote-aware fields (quotes consumed, doubled quotes
/// kept as one literal quote).
pub open spec fn spec_split_rec(
    s: Seq<char>,
    i: int,
    in_q: bool,
    cur: Seq<char>,
    acc: Seq<Seq<char>>,
    delim: char,
    quote: char,
) -> Seq<Seq<char>>
    decreases s.len() - i,
{
    if !(0 <= i < s.len()) {
        acc.push(cur)
    } else if s[i] == quote {
        if in_q && i + 1 < s.len() && s[i + 1] == quote {
            spec_split_rec(s, i + 2, in_q, cur.push(quote), acc, delim, quote)
        } else {
            spec_split_rec(s, i + 1, !in_q, cur, acc, delim, quote)
        }
    } else if s[i] == delim && !in_q {
        spec_split_rec(s, i + 1, in_q, Seq::empty(), acc.push(cur), delim, quote)
    } else {
        spec_split_rec(s, i + 1, in_q, cur.push(s[i]), acc, delim, quote)
    }
}

pub open spec fn spec_split_line(s: Seq<char>, delim: char, quote: char) -> Seq<Seq<char>> {
    spec_split_rec(s, 0, false, Seq::empty(), Seq::empty(), delim, quote)
}

/// Split one sample line into its fields under the tentative dialect.
pub fn split_line(line: &Vec<char>, delim: char, quote: char) -> (r: Vec<Vec<char>>)
    ensures
        lines_view(r) == spec_split_line(line@, delim, quote),
{
    let mut acc: Vec<Vec<char>> = Vec::new();
    let mut cur: Vec<char> = Vec::new();
    let mut in_q = false;
    let mut i: usize = 0;
    assert(lines_view(acc) =~= Seq::<Seq<char>>::empty());
    assert(cur@ =~= Seq::<char>::empty());
    while i < line.len()
        invariant
            0 <= i <= line@.len(),
            spec_split_line(line@, delim, quote) == spec_split_rec(
                line@,
                i as int,
                in_q,
                cur@,
                lines_view(acc),
                delim,
                quote,
            ),
        decreases line@.len() - i,
    {
        let c = line[i];
        if c == quote {
            if in_q && i + 1 < line.len() && line[i + 1] == quote {
                cur.push(quote);
                i = i + 2;
            } else {
                in_q = !in_q;
                i = i + 1;
            }
        } else if c == delim && !in_q {
            let ghost pre = lines_view(acc);
            let ghost cv = cur@;
            let done = cur;
            cur = Vec::new();
            acc.push(done);
            i = i + 1;
            proof {
                assert(lines_view(acc) =~= pre.push(cv));
                assert(cur@ =~= Seq::<char>::empty());
            }
        } else {
            cur.push(c);
            i = i + 1;
        }
    }
    let ghost pre = lines_view(acc);
    let ghost cv = cur@;
    acc.push(cur);
    proof {
        assert(lines_view(acc) =~= pre.push(cv));
    }
    acc
}

/// Numeric cells among a row's fields.
pub open spec fn spec_numeric_count(cells: Seq<Seq<char>>, i: int) -> int
    decreases cells.len() - i,
{
    if !(0 <= i < cells.len()) {
        0int
    } else {
        (if spec_is_numeric(cells[i]) {
            1int
        } else {
            0int
        }) + spec_numeric_count(cells, i + 1)
    }
}

fn numeric_count(cells: &Vec<Vec<char>>) -> (r: usize)
    ensures
        r == spec_numeric_count(lines_view(*cells), 0),
{
    let ghost cv = lines_view(*cells);
    let mut i: usize = 0;
    let mut count: usize = 0;
    while i < cells.len()
        invariant
            0 <= i <= cells@.len(),
            cv == lines_view(*cells),
            count <= i,
            spec_numeric_count(cv, 0) == count + spec_numeric_count(cv, i as int),
        decreases cells@.len() - i,
    {
        if is_numeric(&cells[i]) {
            assert(cv[i as int] == cells@[i as int]@);
            count = count + 1;
        } else {
            assert(cv[i as int] == cells@[i as int]@);
        }
        i = i + 1;
    }
    count
}

/// All cells distinct.
pub open spec fn spec_all_unique(cells: Seq<Seq<char>>) -> bool {
    forall|a: int, b: int| 0 <= a < b < cells.len() ==> #[trigger] cells[a] != #[trigger] cells[b]
}

fn all_unique(cells: &Vec<Vec<char>>) -> (r: bool)
    ensures
        r == spec_all_unique(lines_view(*cells)),
{
    let ghost cv = lines_view(*cells);
    let mut a: usize = 0;
    while a < cells.len()
        invariant
            0 <= a <= cells@.len(),
            cv == lines_view(*cells),
            forall|x: int, y: int| 0 <= x < y < cells@.len() && x < a ==> #[trigger] cv[x] != (
            #[trigger] cv[y]),
        decreases cells@.len() - a,
    {
        let mut b = a + 1;
        while b < cells.len()
            invariant
                0 <= a < b <= cells@.len() || (b == a + 1 && a < cells@.len()),
                a < cells@.len(),
                a + 1 <= b,
                cv == lines_view(*cells),
                forall|y: int| a < y < b ==> cv[a as int] != #[trigger] cv[y],
            decreases cells@.len() - b,
        {
            if eq_chars(&cells[a], &cells[b]) {
                assert(cv[a as int] == cells@[a as int]@ && cv[b as int] == cells@[b as int]@);
                assert(cv[a as int] == cv[b as int]);
                return false;
            }
            assert(cv[a as int] == cells@[a as int]@ && cv[b as int] == cells@[b as int]@);
            b = b + 1;
        }
        a = a + 1;
    }
    true
}

/// A cell of letters, underscores, dashes and spaces only.
pub open spec fn spec_alpha_cell(s: Seq<char>) -> bool {
    forall|k: int|
        0 <= k < s.len() ==> alphabetic_of(#[trigger] s[k]) || s[k] == '_' || s[k] == '-' || s[k]
            == ' '
}

pub open spec fn spec_all_alpha(cells: Seq<Seq<char>>) -> bool {
    forall|k: int| 0 <= k < cells.len() ==> spec_alpha_cell(#[trigger] cells[k])
}

fn all_alpha(cells: &Vec<Vec<char>>) -> (r: bool)
    ensures
        r == spec_all_alpha(lines_view(*cells)),
{
    let ghost cv = lines_view(*cells);
    let mut i: usize = 0;
    while i < cells.len()
        invariant
            0 <= i <= cells@.len(),
            cv == lines_view(*cells),
            forall|k: int| 0 <= k < i ==> spec_alpha_cell(#[trigger] cv[k]),
        decreases cells@.len() - i,
    {
        let cell = &cells[i];
        let mut j: usize = 0;
        while j < cell.len()
            invariant
                0 <= j <= cell@.len(),
                cv == lines_view(*cells),
                cell@ == cv[i as int],
                0 <= i < cv.len(),
                forall|k: int|
                    0 <= k < j ==> alphabetic_of(#[trigger] cell@[k]) || cell@[k] == '_'
                        || cell@[k] == '-' || cell@[k] == ' ',
            decreases cell@.len() - j,
        {
            let c = cell[j];
            if !(char_is_alphabetic(c) || c == '_' || c == '-' || c == ' ') {
                assert(cell@[j as int] == cv[i as int][j as int]);
                assert(!(alphabetic_of(cv[i as int][j as int]) || cv[i as int][j as int] == '_'
                    || cv[i as int][j as int] == '-' || cv[i as int][j as int] == ' '));
                assert(!spec_alpha_cell(cv[i as int]));
                assert(!spec_all_alpha(cv)) by {
                    assert(0 <= i < cv.len() && !spec_alpha_cell(cv[i as int]));
                }
                return false;
            }
            j = j + 1;
        }
        assert(spec_alpha_cell(cv[i as int]));
        i = i + 1;
    }
    true
}

/// The header heuristic over the first two rows: headers when the first row
/// is hardly numeric and the second clearly is, or when the first row is
/// made of unique word-like cells and the second is more numeric.
pub open spec fn spec_looks_like_header(f: Seq<Seq<char>>, s: Seq<Seq<char>>) -> bool {
    let fnum = spec_numeric_count(f, 0);
    let snum = spec_numeric_count(s, 0);
    let flen = if f.len() == 0 {
        1int
    } else {
        f.len() as int
    };
    let slen = if s.len() == 0 {
        1int
    } else {
        s.len() as int
    };
    if 5 * fnum < flen && 5 * snum > 2 * slen {
        true
    } else {
        spec_all_unique(f) && spec_all_alpha(f) && snum * flen > fnum * slen
    }
}

pub fn looks_like_header(first: &Vec<Vec<char>>, second: &Vec<Vec<char>>) -> (r: bool)
    ensures
        r == spec_looks_like_header(lines_view(*first), lines_view(*second)),
{
    let fnum = numeric_count(first);
    let snum = numeric_count(second);
    let flen: usize = if first.len() == 0 {
        1
    } else {
        first.len()
    };
    let slen: usize = if second.len() == 0 {
        1
    } else {
        second.len()
    };
    proof {
        lemma_numeric_count_bound(lines_view(*first), 0);
        lemma_numeric_count_bound(lines_view(*second), 0);
    }
    if 5 * (fnum as u128) < flen as u128 && 5 * (snum as u128) > 2 * (slen as u128) {
        return true;
    }
    if !all_unique(first) {
        return false;
    }
    if !all_alpha(first) {
        return false;
    }
    proof {
        let x = snum as int;
        let y = flen as int;
        let u = fnum as int;
        let v = slen as int;
        assert(0 <= x <= 0xffffffffffffffff && 0 <= y <= 0xffffffffffffffff && 0 <= u
            <= 0xffffffffffffffff && 0 <= v <= 0xffffffffffffffff);
        assert(x * y <= 0xffffffffffffffff * 0xffffffffffffffff && u * v <= 0xffffffffffffffff
            * 0xffffffffffffffff) by (nonlinear_arith)
            requires
                0 <= x <= 0xffffffffffffffff,
                0 <= y <= 0xffffffffffffffff,
                0 <= u <= 0xffffffffffffffff,
                0 <= v <= 0xffffffffffffffff,
        ;
    }
    (snum as u128) * (flen as u128) > (fnum as u128) * (slen as u128)
}

proof fn lemma_numeric_count_bound(cells: Seq<Seq<char>>, i: int)
    requires
        0 <= i <= cells.len(),
    ensures
        0 <= spec_numeric_count(cells, i) <= cells.len() - i,
    decreases cells.len() - i,
{
    if i < cells.len() {
        lemma_numeric_count_bound(cells, i + 1);
    }
}

/// Newlines in a byte sample.
pub open spec fn spec_newline_count(s: Seq<u8>, i: int) -> int
    decreases s.len() - i,
{
    if !(0 <= i < s.len()) {
        0int
    } else {
        (if s[i] == LF {
            1int
        } else {
            0int
        }) + spec_newline_count(s, i + 1)
    }
}

/// Estimate the row count of the whole file from a head sample by linear
/// extrapolation of the sample's newline density; it is an estimate only
/// and `None` when the sample holds no newline.
pub fn estimate_row_count(file_len: u64, sample: &[u8]) -> (r: Option<u64>)
    ensures
        r is Some <==> sample@.len() > 0 && spec_newline_count(sample@, 0) > 0,
        r matches Option::Some(est) ==> est == (file_len as int) * spec_newline_count(sample@, 0)
            / (sample@.len() as int) || est == u64::MAX,
{
    let n = sample.len();
    if n == 0 {
        return None;
    }
    let mut newlines: usize = 0;
    let mut i: usize = 0;
    while i < n
        invariant
            0 <= i <= n,
            n == sample@.len(),
            newlines <= i,
            spec_newline_count(sample@, 0) == newlines + spec_newline_count(sample@, i as int),
        decreases n - i,
    {
        if sample[i] == LF {
            newlines = newlines + 1;
        }
        i = i + 1;
    }
    if newlines == 0 {
        return None;
    }
    proof {
        assert((file_len as int) * (newlines as int) <= 0xffffffffffffffff
            * 0xffffffffffffffff) by (nonlinear_arith)
            requires
                0 <= file_len as int <= 0xffffffffffffffff,
                0 <= newlines as int <= 0xffffffffffffffff,
        ;
        assert((file_len as int) * (newlines as int) >= 0) by (nonlinear_arith)
            requires
                0 <= file_len as int,
                0 <= newlines as int,
        ;
    }
    let wide: u128 = (file_len as u128) * (newlines as u128);
    let est = wide / (n as u128);
    if est > u64::MAX as u128 {
        Some(u64::MAX)
    } else {
        Some(est as u64)
    }
}

/// The byte-order mark at the head of the sample: its encoding label and
/// length, when one of the three known marks is present.
pub open spec fn spec_bom(s: Seq<u8>) -> Option<(Seq<char>, int)> {
    if s.len() >= 3 && s[0] == 0xef && s[1] == 0xbb && s[2] == 0xbf {
        Option::Some(("UTF-8"@, 3int))
    } else if s.len() >= 2 && s[0] == 0xff && s[1] == 0xfe {
        Option::Some(("UTF-16LE"@, 2int))
    } else if s.len() >= 2 && s[0] == 0xfe && s[1] == 0xff {
        Option::Some(("UTF-16BE"@, 2int))
    } else {
        Option::None
    }
}

/// Recognize a leading byte-order mark.
pub fn detect_bom(sample: &[u8]) -> (r: Option<(String, usize)>)
    ensures
        match (r, spec_bom(sample@)) {
            (Option::None, Option::None) => true,
            (Option::Some(a), Option::Some(b)) => a.0@ == b.0 && a.1 as int == b.1,
            _ => false,
        },
{
    if sample.len() >= 3 && sample[0] == 0xef && sample[1] == 0xbb && sample[2] == 0xbf {
        Some((String::from_str("UTF-8"), 3))
    } else if sample.len() >= 2 && sample[0] == 0xff && sample[1] == 0xfe {
        Some((String::from_str("UTF-16LE"), 2))
    } else if sample.len() >= 2 && sample[0] == 0xfe && sample[1] == 0xff {
        Some((String::from_str("UTF-16BE"), 2))
    } else {
        None
    }
}

/// What the statistical encoding detector guesses for a byte sample.
pub uninterp spec fn guessed_encoding_of(sample: Seq<u8>) -> Seq<char>;

/// Relies on `chardetng::EncodingDetector` (`new`, `feed`, `guess`) and
/// `encoding_rs::Encoding::name`: the guess over one complete sample is a
/// function of its bytes alone.
#[verifier::external_body]
pub fn guess_encoding(sample: &[u8]) -> (r: String)
    ensures
        r@ == guessed_encoding_of(sample@),
{
    let mut detector = chardetng::EncodingDetector::new(chardetng::Iso2022JpDetection::Allow);
    detector.feed(sample, true);
    let encoding = detector.guess(None, chardetng::Utf8Detection::Allow);
    String::from_str(encoding.name())
}

/// The encoding label the detector settles on: the byte-order mark's when
/// present, else the statistical guess.
pub open spec fn spec_detected_label(sample: Seq<u8>) -> Seq<char> {
    match spec_bom(sample) {
        Option::Some(b) => b.0,
        Option::None => guessed_encoding_of(sample),
    }
}

/// The sample bytes after the byte-order mark.
pub open spec fn spec_sample_body(sample: Seq<u8>) -> Seq<u8> {
    match spec_bom(sample) {
        Option::Some(b) => sample.skip(b.1),
        Option::None => sample,
    }
}

/// The decoded sample text.
pub open spec fn spec_sample_text(sample: Seq<u8>) -> Seq<char> {
    decoded_text(spec_detected_label(sample), spec_sample_body(sample))
}

/// The escape byte: a backslash when the sample holds `\` followed by the
/// quote, else none.
pub open spec fn spec_detect_escape(text: Seq<char>, quote: u8) -> Option<u8> {
    if contains_seq(text, seq!['\\', quote as char]) {
        Option::Some(92u8)
    } else {
        Option::None
    }
}

/// The header decision over the decoded sample: parse the first two picked
/// lines with the tentative dialect; with fewer than two rows, assume
/// headers.
pub open spec fn spec_detect_headers(text: Seq<char>, delim: u8, quote: u8) -> bool {
    let picked = spec_picked(spec_lines(text));
    if picked.len() >= 2 {
        spec_looks_like_header(
            spec_split_line(picked[0], delim as char, quote as char),
            spec_split_line(picked[1], delim as char, quote as char),
        )
    } else {
        true
    }
}

/// Detect the dialect of a file from its head sample: encoding (a
/// byte-order mark wins over the statistical guess), line ending, quote,
/// delimiter, escape, and the header heuristic.
pub fn detect_parse_settings(sample: &[u8]) -> (r: crate::dialect::DetectedSettings)
    ensures
        r.encoding_label@ == spec_detected_label(sample@),
        r.line_ending == spec_detect_line_ending(spec_sample_body(sample@)),
        r.quote == spec_detect_quote(spec_sample_text(sample@)),
        r.delimiter == spec_detect_delimiter(
            spec_picked(spec_lines(spec_sample_text(sample@))),
            r.quote as char,
        ),
        r.escape == spec_detect_escape(spec_sample_text(sample@), r.quote),
        r.has_headers == spec_detect_headers(spec_sample_text(sample@), r.delimiter, r.quote),
{
    let bom = detect_bom(sample);
    let (label, bom_len): (String, usize) = match bom {
        Some(b) => b,
        None => (guess_encoding(sample), 0),
    };
    let body: &[u8] = if bom_len <= sample.len() {
        &sample[bom_len..sample.len()]
    } else {
        sample
    };
    proof {
        assert(body@ =~= spec_sample_body(sample@));
    }
    let line_ending = detect_line_ending(body);
    let (decoded, _) = decode_field(label.as_str(), body);
    let text = chars_vec(decoded.as_str());
    assert(text@ == spec_sample_text(sample@));
    let quote = detect_quote_char(&text);
    let all_lines = split_lines(&text);
    let picked = pick_lines(&all_lines);
    let delimiter = detect_delimiter(&picked, quote as char);
    let mut needle: Vec<char> = Vec::new();
    needle.push('\\');
    needle.push(quote as char);
    assert(needle@ =~= seq!['\\', quote as char]);
    let escape: Option<u8> = if contains_chars(&text, &needle) {
        Some(92u8)
    } else {
        None
    };
    let has_headers: bool = if picked.len() >= 2 {
        let first = split_line(&picked[0], delimiter as char, quote as char);
        let second = split_line(&picked[1], delimiter as char, quote as char);
        proof {
            assert(picked@[0]@ == spec_picked(spec_lines(text@))[0]);
            assert(picked@[1]@ == spec_picked(spec_lines(text@))[1]);
        }
        looks_like_header(&first, &second)
    } else {
        true
    };
    crate::dialect::DetectedSettings {
        delimiter,
        quote,
        escape,
        line_ending,
        encoding_label: label,
        has_headers,
    }
}

} // verus!
