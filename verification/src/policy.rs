//! Malformed-row policies: the length rule (a record must have the expected
//! column count) and the size rule (per-field and whole-record byte caps),
//! each resolved per the dialect's malformed mode, plus the structured
//! warnings they emit and the bounded warning list.

use vstd::prelude::*;

use crate::dialect::{MalformedMode, ParseSettings};
use crate::MAX_WARNING_COUNT;

verus! {

/// Classifies a warning; callers filter on this, the message is advisory.
#[derive(Clone, Copy, Debug, PartialEq, Eq, Structural)]
pub enum WarningKind {
    Parse,
    UnequalLengths,
    Utf8,
    MaxFieldSize,
    MaxRecordSize,
    Repaired,
}

/// A structured parse warning.
#[derive(Clone, Debug)]
pub struct ParseWarning {
    pub record: Option<u64>,
    pub line: Option<u64>,
    pub byte: Option<u64>,
    pub field: Option<u64>,
    pub kind: WarningKind,
    pub message: String,
    pub expected_len: Option<u64>,
    pub len: Option<u64>,
}

/// Errors surfaced by the engine; each maps to one short user-visible string.
#[derive(Clone, Copy, Debug, PartialEq, Eq, Structural)]
pub enum CsvError {
    /// A record broke the length rule in strict mode.
    Parse,
    /// A record broke a size cap in strict mode.
    Limit,
    /// A record failed to decode in strict mode.
    Encoding,
    /// An operation that needs the offset array ran before it was built.
    NotIndexed,
    /// A sorted read ran before the offset array was ready.
    RowIndexNotReady,
    /// A read ran with no file loaded.
    NoFile,
    /// A sorted read ran with no sort permutation installed.
    NoSort,
}

impl CsvError {
    /// The user-visible description of this error.
    pub fn message(&self) -> (r: String)
        ensures
            self is Parse ==> r@ == "CSV record has unexpected field count"@,
            self is Limit ==> r@ == "CSV record exceeds size limits"@,
            self is Encoding ==> r@ == "CSV record has invalid encoding"@,
            self is NotIndexed ==> r@ == "File not fully indexed yet"@,
            self is RowIndexNotReady ==> r@ == "Row index not ready"@,
            self is NoFile ==> r@ == "No file loaded"@,
            self is NoSort ==> r@ == "No sorted data"@,
    {
        match self {
            CsvError::Parse => String::from_str("CSV record has unexpected field count"),
            CsvError::Limit => String::from_str("CSV record exceeds size limits"),
            CsvError::Encoding => String::from_str("CSV record has invalid encoding"),
            CsvError::NotIndexed => String::from_str("File not fully indexed yet"),
            CsvError::RowIndexNotReady => String::from_str("Row index not ready"),
            CsvError::NoFile => String::from_str("No file loaded"),
            CsvError::NoSort => String::from_str("No sorted data"),
        }
    }
}

/// Append a warning unless the bounded list is already full.
pub fn push_warning(warnings: &mut Vec<ParseWarning>, warning: ParseWarning)
    ensures
        old(warnings)@.len() >= MAX_WARNING_COUNT ==> final(warnings)@ == old(warnings)@,
        old(warnings)@.len() < MAX_WARNING_COUNT ==> final(warnings)@ == old(warnings)@.push(
            warning,
        ),
{
    if warnings.len() >= MAX_WARNING_COUNT {
        return ;
    }
    warnings.push(warning);
}

/// Total byte size of a record's fields.
pub open spec fn spec_total_len(fields: Seq<Seq<u8>>) -> int
    decreases fields.len(),
{
    if fields.len() == 0 {
        0
    } else {
        spec_total_len(fields.drop_last()) + fields.last().len()
    }
}

pub proof fn lemma_total_len_nonneg(fields: Seq<Seq<u8>>)
    ensures
        spec_total_len(fields) >= 0,
    decreases fields.len(),
{
    if fields.len() > 0 {
        lemma_total_len_nonneg(fields.drop_last());
    }
}

/// Index of the first field longer than `maxf`, or -1 when none is.
pub open spec fn spec_first_long(fields: Seq<Seq<u8>>, maxf: usize) -> int
    decreases fields.len(),
{
    if fields.len() == 0 {
        -1
    } else if fields[0].len() > maxf {
        0
    } else {
        let r = spec_first_long(fields.drop_first(), maxf);
        if r < 0 {
            -1
        } else {
            r + 1
        }
    }
}

pub open spec fn has_long_field(fields: Seq<Seq<u8>>, maxf: usize) -> bool {
    exists|k: int| 0 <= k < fields.len() && fields[k].len() > maxf
}

pub proof fn lemma_first_long(fields: Seq<Seq<u8>>, maxf: usize)
    ensures
        has_long_field(fields, maxf) <==> spec_first_long(fields, maxf) >= 0,
        spec_first_long(fields, maxf) >= 0 ==> {
            let j = spec_first_long(fields, maxf);
            &&& j < fields.len()
            &&& fields[j].len() > maxf
            &&& forall|k: int| 0 <= k < j ==> fields[k].len() <= maxf
        },
    decreases fields.len(),
{
    if fields.len() > 0 && !(fields[0].len() > maxf) {
        lemma_first_long(fields.drop_first(), maxf);
        let rest = fields.drop_first();
        assert(forall|k: int|
            0 <= k < rest.len() ==> rest[k] == fields[k + 1]);
        if has_long_field(fields, maxf) {
            let w = choose|k: int| 0 <= k < fields.len() && fields[k].len() > maxf;
            assert(rest[w - 1].len() > maxf);
        }
        if has_long_field(rest, maxf) {
            let w = choose|k: int| 0 <= k < rest.len() && rest[k].len() > maxf;
            assert(fields[w + 1].len() > maxf);
        }
        if spec_first_long(fields, maxf) >= 0 {
            let j = spec_first_long(fields, maxf);
            assert(j == spec_first_long(rest, maxf) + 1);
            assert forall|k: int| 0 <= k < j implies fields[k].len() <= maxf by {
                if k > 0 {
                    assert(fields[k] == rest[k - 1]);
                }
            }
        }
    }
}

/// The record violates the expected column count.
pub open spec fn len_violation(fields: Seq<Seq<u8>>, expected: Option<usize>) -> bool {
    expected is Some && fields.len() != expected->0
}

/// The record violates a size cap.
pub open spec fn size_violation(fields: Seq<Seq<u8>>, maxf: usize, maxr: usize) -> bool {
    has_long_field(fields, maxf) || spec_total_len(fields) > maxr
}

pub open spec fn any_violation(
    fields: Seq<Seq<u8>>,
    expected: Option<usize>,
    maxf: usize,
    maxr: usize,
) -> bool {
    len_violation(fields, expected) || size_violation(fields, maxf, maxr)
}

/// In skip mode a violating record is dropped; strict and repair keep it
/// (strict only when it is not fatal, see [`spec_fatal`]).
pub open spec fn spec_keeps(
    fields: Seq<Seq<u8>>,
    expected: Option<usize>,
    maxf: usize,
    maxr: usize,
    mode: MalformedMode,
) -> bool {
    mode != MalformedMode::Skip || !any_violation(fields, expected, maxf, maxr)
}

/// In strict mode a violating record fails the whole operation.
pub open spec fn spec_fatal(
    fields: Seq<Seq<u8>>,
    expected: Option<usize>,
    maxf: usize,
    maxr: usize,
    mode: MalformedMode,
) -> bool {
    mode == MalformedMode::Strict && any_violation(fields, expected, maxf, maxr)
}

/// Largest prefix length of `f` that is at most `j` and does not split a
/// UTF-8 continuation run.
pub open spec fn spec_boundary_back(f: Seq<u8>, j: int) -> int
    decreases j,
{
    if j <= 0 {
        0
    } else if j >= f.len() {
        f.len() as int
    } else if !vstd::utf8::is_continuation_byte(f[j]) {
        j
    } else {
        spec_boundary_back(f, j - 1)
    }
}

/// `f` truncated to at most `max` bytes, backing off to a code-point
/// boundary so that no multi-byte sequence is split.
pub open spec fn spec_trunc(f: Seq<u8>, max: usize) -> Seq<u8> {
    if f.len() <= max {
        f
    } else {
        f.take(spec_boundary_back(f, max as int))
    }
}

pub proof fn lemma_boundary_back_bounds(f: Seq<u8>, j: int)
    requires
        j >= 0,
    ensures
        0 <= spec_boundary_back(f, j) <= j,
    decreases j,
{
    if !(j <= 0) && j < f.len() && vstd::utf8::is_continuation_byte(f[j]) {
        lemma_boundary_back_bounds(f, j - 1);
    }
}

/// The back-off position is zero or lands on a non-continuation byte.
pub proof fn lemma_boundary_back_char(f: Seq<u8>, j: int)
    requires
        j >= 0,
    ensures
        ({
            let b = spec_boundary_back(f, j);
            b == 0 || b >= f.len() || !vstd::utf8::is_continuation_byte(f[b])
        }),
    decreases j,
{
    if !(j <= 0) && j < f.len() && vstd::utf8::is_continuation_byte(f[j]) {
        lemma_boundary_back_char(f, j - 1);
    }
}

/// Truncation at a code-point boundary keeps the bytes valid UTF-8.
pub proof fn lemma_trunc_valid(b: Seq<u8>, max: usize)
    requires
        vstd::utf8::valid_utf8(b),
    ensures
        vstd::utf8::valid_utf8(spec_trunc(b, max)),
{
    if b.len() <= max {
    } else {
        let j = spec_boundary_back(b, max as int);
        lemma_boundary_back_char(b, max as int);
        lemma_boundary_back_bounds(b, max as int);
        assert(vstd::utf8::is_char_boundary(b, j)) by {
            if j == 0 {
                vstd::utf8::is_char_boundary_start_end_of_seq(b);
            } else {
                vstd::utf8::is_char_boundary_iff_not_is_continuation_byte(b, j);
            }
        }
        vstd::utf8::valid_utf8_split(b, j);
        assert(b.take(j) =~= b.subrange(0, j));
    }
}

/// The length rule's repair: pad with empty fields or drop trailing fields
/// until the record has exactly `expected` fields.
pub open spec fn spec_fix_len(fields: Seq<Seq<u8>>, expected: Option<usize>) -> Seq<Seq<u8>> {
    match expected {
        Option::None => fields,
        Option::Some(n) => Seq::new(n as nat, |k: int| if k < fields.len() {
            fields[k]
        } else {
            Seq::<u8>::empty()
        }),
    }
}

/// Drop trailing fields while the record total exceeds `maxr`.
pub open spec fn spec_fit_total(fields: Seq<Seq<u8>>, maxr: usize) -> Seq<Seq<u8>>
    decreases fields.len(),
{
    if fields.len() == 0 || spec_total_len(fields) <= maxr {
        fields
    } else {
        spec_fit_total(fields.drop_last(), maxr)
    }
}

/// The repair mode's transform: fix the field count, truncate over-long
/// fields at a code-point boundary, then drop trailing fields until the
/// total fits.
pub open spec fn spec_repair(
    fields: Seq<Seq<u8>>,
    expected: Option<usize>,
    maxf: usize,
    maxr: usize,
) -> Seq<Seq<u8>> {
    let lf = spec_fix_len(fields, expected);
    let tf = Seq::new(lf.len(), |k: int| spec_trunc(lf[k], maxf));
    spec_fit_total(tf, maxr)
}

/// What a kept record's fields are after the policies ran.
pub open spec fn spec_processed(
    fields: Seq<Seq<u8>>,
    expected: Option<usize>,
    maxf: usize,
    maxr: usize,
    mode: MalformedMode,
) -> Seq<Seq<u8>> {
    if mode == MalformedMode::Repair {
        spec_repair(fields, expected, maxf, maxr)
    } else {
        fields
    }
}

/// Whether repair mode changes anything size-related (and so warns).
pub open spec fn spec_size_repairs(
    fields: Seq<Seq<u8>>,
    expected: Option<usize>,
    maxf: usize,
    maxr: usize,
) -> bool {
    let lf = spec_fix_len(fields, expected);
    has_long_field(lf, maxf) || spec_total_len(Seq::new(lf.len(), |k: int| spec_trunc(lf[k], maxf)))
        > maxr
}

/// The warnings a record generates, as (kind, expected_len, len) triples.
pub open spec fn spec_policy_warnings(
    fields: Seq<Seq<u8>>,
    expected: Option<usize>,
    maxf: usize,
    maxr: usize,
    mode: MalformedMode,
) -> Seq<(WarningKind, Option<u64>, Option<u64>)> {
    if mode == MalformedMode::Strict {
        Seq::empty()
    } else if mode == MalformedMode::Skip {
        if len_violation(fields, expected) {
            seq![
                (
                    WarningKind::UnequalLengths,
                    Option::Some(expected->0 as u64),
                    Option::Some(fields.len() as u64),
                ),
            ]
        } else if has_long_field(fields, maxf) {
            seq![
                (
                    WarningKind::MaxFieldSize,
                    Option::None,
                    Option::Some(fields[spec_first_long(fields, maxf)].len() as u64),
                ),
            ]
        } else if spec_total_len(fields) > maxr {
            seq![
                (WarningKind::MaxRecordSize, Option::None, Option::Some(spec_total_sat(fields))),
            ]
        } else {
            Seq::empty()
        }
    } else {
        let a: Seq<(WarningKind, Option<u64>, Option<u64>)> = if len_violation(fields, expected) {
            seq![
                (
                    WarningKind::Repaired,
                    Option::Some(expected->0 as u64),
                    Option::Some(expected->0 as u64),
                ),
            ]
        } else {
            Seq::empty()
        };
        let b: Seq<(WarningKind, Option<u64>, Option<u64>)> = if spec_size_repairs(
            fields,
            expected,
            maxf,
            maxr,
        ) {
            seq![(WarningKind::Repaired, Option::None, Option::None)]
        } else {
            Seq::empty()
        };
        a + b
    }
}

/// When all of `fields[..j]` are short and `fields[j]` is long, `j` is the
/// first long field.
pub proof fn lemma_first_long_char(fields: Seq<Seq<u8>>, maxf: usize, j: int)
    requires
        0 <= j < fields.len(),
        fields[j].len() > maxf,
        forall|k: int| 0 <= k < j ==> fields[k].len() <= maxf,
    ensures
        spec_first_long(fields, maxf) == j,
    decreases j,
{
    if j > 0 {
        let rest = fields.drop_first();
        assert(forall|k: int| 0 <= k < rest.len() ==> rest[k] == fields[k + 1]);
        lemma_first_long_char(rest, maxf, j - 1);
    }
}

pub proof fn lemma_total_len_take_step(s: Seq<Seq<u8>>, i: int)
    requires
        0 <= i < s.len(),
    ensures
        spec_total_len(s.take(i + 1)) == spec_total_len(s.take(i)) + s[i].len(),
{
    assert(s.take(i + 1).drop_last() =~= s.take(i));
    assert(s.take(i + 1).last() == s[i]);
}

pub proof fn lemma_total_len_prefix(s: Seq<Seq<u8>>, i: int)
    requires
        0 <= i <= s.len(),
    ensures
        spec_total_len(s) >= spec_total_len(s.take(i)),
    decreases s.len() - i,
{
    if i < s.len() {
        lemma_total_len_take_step(s, i);
        lemma_total_len_prefix(s, i + 1);
    } else {
        assert(s.take(i) =~= s);
    }
}

/// Index of the first field longer than `maxf`, if any.
pub fn first_long_field(fields: &Vec<Vec<u8>>, maxf: usize) -> (r: Option<usize>)
    ensures
        match r {
            Option::Some(j) => spec_first_long(crate::record::rows_bytes_view(*fields), maxf)
                == j as int && j < fields@.len() && has_long_field(
                crate::record::rows_bytes_view(*fields),
                maxf,
            ),
            Option::None => !has_long_field(crate::record::rows_bytes_view(*fields), maxf),
        },
{
    let ghost v = crate::record::rows_bytes_view(*fields);
    let mut i: usize = 0;
    while i < fields.len()
        invariant
            0 <= i <= fields@.len(),
            v == crate::record::rows_bytes_view(*fields),
            forall|k: int| 0 <= k < i ==> v[k].len() <= maxf,
        decreases fields@.len() - i,
    {
        if fields[i].len() > maxf {
            proof {
                lemma_first_long_char(v, maxf, i as int);
            }
            return Some(i);
        }
        i = i + 1;
    }
    proof {
        lemma_first_long(v, maxf);
    }
    None
}

/// Total field size as a saturating 64-bit count.
pub open spec fn spec_total_sat(fields: Seq<Seq<u8>>) -> u64 {
    if spec_total_len(fields) > u64::MAX {
        u64::MAX
    } else if spec_total_len(fields) < 0 {
        0u64
    } else {
        spec_total_len(fields) as u64
    }
}

/// Total byte size of the fields, saturating at `u64::MAX`.
pub fn total_len_sat(fields: &Vec<Vec<u8>>) -> (r: u64)
    ensures
        r == spec_total_sat(crate::record::rows_bytes_view(*fields)),
        r < u64::MAX ==> r == spec_total_len(crate::record::rows_bytes_view(*fields)),
{
    let ghost v = crate::record::rows_bytes_view(*fields);
    proof {
        lemma_total_len_nonneg(v);
    }
    let mut total: u64 = 0;
    let mut i: usize = 0;
    while i < fields.len()
        invariant
            0 <= i <= fields@.len(),
            v == crate::record::rows_bytes_view(*fields),
            total == spec_total_sat(v.take(i as int)),
            total < u64::MAX ==> total == spec_total_len(v.take(i as int)),
        decreases fields@.len() - i,
    {
        proof {
            lemma_total_len_take_step(v, i as int);
            lemma_total_len_nonneg(v.take(i as int));
        }
        let flen = fields[i].len();
        if flen as u64 >= u64::MAX - total {
            total = u64::MAX;
        } else {
            total = total + flen as u64;
        }
        i = i + 1;
    }
    proof {
        assert(v.take(fields@.len() as int) =~= v);
    }
    total
}

/// Whether the record's total size exceeds `maxr`.
pub fn total_exceeds(fields: &Vec<Vec<u8>>, maxr: usize) -> (r: bool)
    ensures
        r == (spec_total_len(crate::record::rows_bytes_view(*fields)) > maxr),
{
    let ghost v = crate::record::rows_bytes_view(*fields);
    let mut total: usize = 0;
    let mut i: usize = 0;
    while i < fields.len()
        invariant
            0 <= i <= fields@.len(),
            v == crate::record::rows_bytes_view(*fields),
            total == spec_total_len(v.take(i as int)),
            total <= maxr,
        decreases fields@.len() - i,
    {
        proof {
            lemma_total_len_take_step(v, i as int);
        }
        let flen = fields[i].len();
        if flen > maxr - total {
            proof {
                lemma_total_len_prefix(v, i + 1);
            }
            return true;
        }
        total = total + flen;
        i = i + 1;
    }
    proof {
        assert(v.take(fields@.len() as int) =~= v);
    }
    false
}

/// `f` truncated to at most `maxf` bytes at a code-point boundary.
pub fn truncate_field(f: &Vec<u8>, maxf: usize) -> (r: Vec<u8>)
    ensures
        r@ == spec_trunc(f@, maxf),
{
    if f.len() <= maxf {
        let mut out: Vec<u8> = Vec::new();
        out.extend_from_slice(f.as_slice());
        assert(out@ =~= f@);
        return out;
    }
    let mut end = maxf;
    while end > 0 && f[end] >= 0x80 && f[end] <= 0xbf
        invariant
            0 <= end <= maxf < f@.len(),
            spec_boundary_back(f@, maxf as int) == spec_boundary_back(f@, end as int),
        decreases end,
    {
        end = end - 1;
    }
    assert(spec_boundary_back(f@, end as int) == end as int);
    let mut out: Vec<u8> = Vec::new();
    let mut i: usize = 0;
    while i < end
        invariant
            0 <= i <= end <= f@.len(),
            out@ == f@.take(i as int),
        decreases end - i,
    {
        let ghost pre = out@;
        out.push(f[i]);
        i = i + 1;
        assert(out@ =~= f@.take(i as int));
    }
    out
}

/// Pad with empty fields or drop trailing fields so the record has exactly
/// `expected` fields.
pub fn fix_len(fields: Vec<Vec<u8>>, expected: usize) -> (r: Vec<Vec<u8>>)
    ensures
        crate::record::rows_bytes_view(r) == spec_fix_len(
            crate::record::rows_bytes_view(fields),
            Option::Some(expected),
        ),
{
    let ghost v = crate::record::rows_bytes_view(fields);
    let mut out = fields;
    if out.len() > expected {
        out.truncate(expected);
        assert(crate::record::rows_bytes_view(out) =~= spec_fix_len(v, Option::Some(expected)));
        return out;
    }
    while out.len() < expected
        invariant
            v.len() <= out@.len() <= expected,
            forall|k: int|
                0 <= k < out@.len() ==> crate::record::rows_bytes_view(out)[k] == (if k < v.len() {
                    v[k]
                } else {
                    Seq::<u8>::empty()
                }),
        decreases expected - out@.len(),
    {
        let ghost pre = crate::record::rows_bytes_view(out);
        let e: Vec<u8> = Vec::new();
        assert(e@ =~= Seq::<u8>::empty());
        out.push(e);
        proof {
            let post = crate::record::rows_bytes_view(out);
            assert(post.len() == pre.len() + 1);
            assert forall|k: int| 0 <= k < post.len() implies post[k] == (if k < pre.len() {
                pre[k]
            } else {
                Seq::<u8>::empty()
            }) by {
                if k < pre.len() {
                    assert(post[k] == out@[k]@ && pre[k] == out@[k]@);
                }
            }
        }
    }
    assert(crate::record::rows_bytes_view(out) =~= spec_fix_len(v, Option::Some(expected)));
    out
}

/// Drop trailing fields while the total exceeds `maxr`.
pub fn fit_total(fields: Vec<Vec<u8>>, maxr: usize) -> (r: Vec<Vec<u8>>)
    ensures
        crate::record::rows_bytes_view(r) == spec_fit_total(
            crate::record::rows_bytes_view(fields),
            maxr,
        ),
{
    let ghost v0 = crate::record::rows_bytes_view(fields);
    let mut out = fields;
    loop
        invariant
            spec_fit_total(v0, maxr) == spec_fit_total(crate::record::rows_bytes_view(out), maxr),
        ensures
            ({
                let v = crate::record::rows_bytes_view(out);
                v.len() == 0 || spec_total_len(v) <= maxr
            }),
        decreases out@.len(),
    {
        let ghost v = crate::record::rows_bytes_view(out);
        if out.len() == 0 {
            break ;
        }
        if !total_exceeds(&out, maxr) {
            break ;
        }
        out.pop();
        assert(crate::record::rows_bytes_view(out) =~= v.drop_last());
    }
    let ghost v = crate::record::rows_bytes_view(out);
    assert(spec_fit_total(v, maxr) == v);
    out
}

/// The appended warnings agree with the descriptors, are stamped with the
/// record number and byte position, and respect the bounded list.
pub open spec fn warnings_extended(
    before: Seq<ParseWarning>,
    after: Seq<ParseWarning>,
    descs: Seq<(WarningKind, Option<u64>, Option<u64>)>,
    row: u64,
    byte_pos: u64,
) -> bool {
    let room = if before.len() >= MAX_WARNING_COUNT {
        0int
    } else {
        MAX_WARNING_COUNT - before.len()
    };
    let added = if descs.len() <= room {
        descs.len() as int
    } else {
        room
    };
    &&& after.len() == before.len() + added
    &&& forall|k: int| 0 <= k < before.len() ==> after[k] == before[k]
    &&& forall|k: int|
        before.len() <= k < after.len() ==> {
            let d = descs[k - before.len()];
            &&& (#[trigger] after[k]).kind == d.0
            &&& after[k].expected_len == d.1
            &&& after[k].len == d.2
            &&& after[k].record == Option::Some(row)
            &&& after[k].byte == Option::Some(byte_pos)
        }
}

/// Policy descriptors stamped with the record number and byte position.
pub open spec fn spec_stamped(
    descs: Seq<(WarningKind, Option<u64>, Option<u64>)>,
    row: u64,
    byte_pos: u64,
) -> Seq<(WarningKind, Option<u64>, Option<u64>, u64, u64)> {
    Seq::new(descs.len(), |k: int| (descs[k].0, descs[k].1, descs[k].2, row, byte_pos))
}

/// The appended warnings agree one for one with the stamped descriptors,
/// respecting the bounded list: as many as fit are appended, in order.
pub open spec fn warnings_match(
    before: Seq<ParseWarning>,
    after: Seq<ParseWarning>,
    descs: Seq<(WarningKind, Option<u64>, Option<u64>, u64, u64)>,
) -> bool {
    let room = if before.len() >= MAX_WARNING_COUNT {
        0int
    } else {
        MAX_WARNING_COUNT - before.len()
    };
    let added = if descs.len() <= room {
        descs.len() as int
    } else {
        room
    };
    &&& after.len() == before.len() + added
    &&& forall|k: int| 0 <= k < before.len() ==> after[k] == before[k]
    &&& forall|k: int|
        before.len() <= k < after.len() ==> {
            let d = descs[k - before.len()];
            &&& (#[trigger] after[k]).kind == d.0
            &&& after[k].expected_len == d.1
            &&& after[k].len == d.2
            &&& after[k].record == Option::Some(d.3)
            &&& after[k].byte == Option::Some(d.4)
        }
}

/// A policy append is a stamped-descriptor match.
pub proof fn lemma_extended_is_match(
    before: Seq<ParseWarning>,
    after: Seq<ParseWarning>,
    descs: Seq<(WarningKind, Option<u64>, Option<u64>)>,
    row: u64,
    byte_pos: u64,
)
    requires
        warnings_extended(before, after, descs, row, byte_pos),
    ensures
        warnings_match(before, after, spec_stamped(descs, row, byte_pos)),
{
}

/// Matching appends compose: appending the descriptors of two phases in
/// turn matches their concatenation.
pub proof fn lemma_match_compose(
    b: Seq<ParseWarning>,
    m: Seq<ParseWarning>,
    a: Seq<ParseWarning>,
    d1: Seq<(WarningKind, Option<u64>, Option<u64>, u64, u64)>,
    d2: Seq<(WarningKind, Option<u64>, Option<u64>, u64, u64)>,
)
    requires
        warnings_match(b, m, d1),
        warnings_match(m, a, d2),
    ensures
        warnings_match(b, a, d1 + d2),
{
    let room = if b.len() >= MAX_WARNING_COUNT {
        0int
    } else {
        MAX_WARNING_COUNT - b.len()
    };
    let added1 = if d1.len() <= room {
        d1.len() as int
    } else {
        room
    };
    assert forall|k: int| b.len() <= k < a.len() implies {
        let d = (d1 + d2)[k - b.len()];
        &&& (#[trigger] a[k]).kind == d.0
        &&& a[k].expected_len == d.1
        &&& a[k].len == d.2
        &&& a[k].record == Option::Some(d.3)
        &&& a[k].byte == Option::Some(d.4)
    } by {
        if k < m.len() {
            assert(a[k] == m[k]);
            assert((d1 + d2)[k - b.len()] == d1[k - b.len()]);
        } else {
            assert(added1 == d1.len());
            assert((d1 + d2)[k - b.len()] == d2[k - m.len()]);
        }
    }
}

/// Build a warning with the given classification and counts.
fn mk_warning(
    kind: WarningKind,
    row: u64,
    byte_pos: u64,
    expected_len: Option<u64>,
    len: Option<u64>,
    message: String,
) -> (r: ParseWarning)
    ensures
        r.kind == kind,
        r.record == Option::Some(row),
        r.byte == Option::Some(byte_pos),
        r.expected_len == expected_len,
        r.len == len,
{
    ParseWarning {
        record: Some(row),
        line: None,
        byte: Some(byte_pos),
        field: None,
        kind,
        message,
        expected_len,
        len,
    }
}

/// Apply the length and size policies to one record under the dialect's
/// malformed mode: strict fails, skip drops the record, repair coerces it;
/// the warnings the record generates are appended to the bounded list.
pub fn process_record(
    fields: Vec<Vec<u8>>,
    expected: Option<usize>,
    s: &ParseSettings,
    row: u64,
    byte_pos: u64,
    warnings: &mut Vec<ParseWarning>,
) -> (r: Result<Option<Vec<Vec<u8>>>, CsvError>)
    ensures
        ({
            let v = crate::record::rows_bytes_view(fields);
            let maxf = s.max_field_size;
            let maxr = s.max_record_size;
            let mode = s.malformed;
            &&& warnings_extended(
                old(warnings)@,
                final(warnings)@,
                spec_policy_warnings(v, expected, maxf, maxr, mode),
                row,
                byte_pos,
            )
            &&& (spec_fatal(v, expected, maxf, maxr, mode) ==> r == (if len_violation(v, expected) {
                Result::<Option<Vec<Vec<u8>>>, CsvError>::Err(CsvError::Parse)
            } else {
                Result::<Option<Vec<Vec<u8>>>, CsvError>::Err(CsvError::Limit)
            }))
            &&& (!spec_fatal(v, expected, maxf, maxr, mode) && !spec_keeps(
                v,
                expected,
                maxf,
                maxr,
                mode,
            ) ==> r is Ok && r->Ok_0 is None)
            &&& (!spec_fatal(v, expected, maxf, maxr, mode) && spec_keeps(
                v,
                expected,
                maxf,
                maxr,
                mode,
            ) ==> match r {
                Result::Ok(Option::Some(out)) => crate::record::rows_bytes_view(out)
                    == spec_processed(v, expected, maxf, maxr, mode),
                _ => false,
            })
        }),
{
    let ghost v = crate::record::rows_bytes_view(fields);
    let maxf = s.max_field_size;
    let maxr = s.max_record_size;
    let lv = expected.is_some() && fields.len() != *expected.as_ref().unwrap();
    match s.malformed {
        MalformedMode::Strict => {
            if lv {
                Err(CsvError::Parse)
            } else if first_long_field(&fields, maxf).is_some() || total_exceeds(&fields, maxr) {
                Err(CsvError::Limit)
            } else {
                Ok(Some(fields))
            }
        },
        MalformedMode::Skip => {
            if lv {
                let exp = *expected.as_ref().unwrap();
                push_warning(
                    warnings,
                    mk_warning(
                        WarningKind::UnequalLengths,
                        row,
                        byte_pos,
                        Some(exp as u64),
                        Some(fields.len() as u64),
                        String::from_str("Record has an unexpected number of fields"),
                    ),
                );
                return Ok(None);
            }
            let fl = first_long_field(&fields, maxf);
            if fl.is_some() {
                let j = fl.unwrap();
                push_warning(
                    warnings,
                    mk_warning(
                        WarningKind::MaxFieldSize,
                        row,
                        byte_pos,
                        None,
                        Some(fields[j].len() as u64),
                        String::from_str("Field exceeds the size cap"),
                    ),
                );
                return Ok(None);
            }
            if total_exceeds(&fields, maxr) {
                let total = total_len_sat(&fields);
                push_warning(
                    warnings,
                    mk_warning(
                        WarningKind::MaxRecordSize,
                        row,
                        byte_pos,
                        None,
                        Some(total),
                        String::from_str("Record exceeds the size cap"),
                    ),
                );
                return Ok(None);
            }
            Ok(Some(fields))
        },
        MalformedMode::Repair => {
            let mut cur = fields;
            if lv {
                let exp = *expected.as_ref().unwrap();
                cur = fix_len(cur, exp);
                push_warning(
                    warnings,
                    mk_warning(
                        WarningKind::Repaired,
                        row,
                        byte_pos,
                        Some(exp as u64),
                        Some(exp as u64),
                        String::from_str("Record padded or truncated to the expected field count"),
                    ),
                );
            } else {
                assert(crate::record::rows_bytes_view(cur) =~= spec_fix_len(v, expected));
            }
            let ghost lf = spec_fix_len(v, expected);
            let needs_field_trunc = first_long_field(&cur, maxf).is_some();
            let mut tf: Vec<Vec<u8>> = Vec::new();
            let mut i: usize = 0;
            while i < cur.len()
                invariant
                    0 <= i <= cur@.len(),
                    lf == crate::record::rows_bytes_view(cur),
                    tf@.len() == i,
                    forall|k: int|
                        0 <= k < i ==> crate::record::rows_bytes_view(tf)[k] == spec_trunc(
                            lf[k],
                            maxf,
                        ),
                decreases cur@.len() - i,
            {
                let ghost pre = crate::record::rows_bytes_view(tf);
                let t = truncate_field(&cur[i], maxf);
                let ghost tv = t@;
                tf.push(t);
                i = i + 1;
                proof {
                    let post = crate::record::rows_bytes_view(tf);
                    assert forall|k: int| 0 <= k < i implies post[k] == spec_trunc(lf[k], maxf) by {
                        if k < i - 1 {
                            assert(post[k] == pre[k]);
                        } else {
                            assert(post[k] == tv);
                        }
                    }
                }
            }
            assert(crate::record::rows_bytes_view(tf) =~= Seq::new(
                lf.len(),
                |k: int| spec_trunc(lf[k], maxf),
            ));
            let te = total_exceeds(&tf, maxr);
            let out = fit_total(tf, maxr);
            if needs_field_trunc || te {
                push_warning(
                    warnings,
                    mk_warning(
                        WarningKind::Repaired,
                        row,
                        byte_pos,
                        None,
                        None,
                        String::from_str("Record truncated to fit size limits"),
                    ),
                );
            }
            Ok(Some(out))
        },
    }
}

} // verus!
