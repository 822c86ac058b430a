//! The offset indexer: one sequential pass that records the byte position of
//! every kept data row, so the file becomes a random-access array of records.

use vstd::prelude::*;

use crate::dialect::{LineEnding, MalformedMode, ParseSettings};
use crate::policy::{
    process_record, spec_fatal, spec_keeps, spec_processed, ParseWarning,
};
use crate::record::{
    lemma_next_record_bounds, next_record, spec_next_record,
};
use crate::MAX_WARNING_COUNT;

verus! {

/// Where data rows begin: after the header record when headers are enabled.
pub open spec fn spec_body_start(
    data: Seq<u8>,
    delim: u8,
    quote: u8,
    esc: Option<u8>,
    e: LineEnding,
    has_headers: bool,
) -> int {
    if has_headers {
        match spec_next_record(data, 0, delim, quote, esc, e) {
            Option::Some(r) => r.1,
            Option::None => data.len() as int,
        }
    } else {
        0
    }
}

/// Start positions of the kept records from `pos` on: the offset array.
pub open spec fn spec_offsets_from(
    data: Seq<u8>,
    pos: int,
    delim: u8,
    quote: u8,
    esc: Option<u8>,
    e: LineEnding,
    expected: Option<usize>,
    maxf: usize,
    maxr: usize,
    mode: MalformedMode,
) -> Seq<int>
    decreases data.len() - pos,
    when 0 <= pos <= data.len()
    via spec_offsets_from_dec
{
    match spec_next_record(data, pos, delim, quote, esc, e) {
        Option::None => Seq::empty(),
        Option::Some(r) => {
            let rest = spec_offsets_from(data, r.1, delim, quote, esc, e, expected, maxf, maxr, mode);
            if spec_keeps(r.0, expected, maxf, maxr, mode) {
                seq![pos] + rest
            } else {
                rest
            }
        },
    }
}

#[via_fn]
proof fn spec_offsets_from_dec(
    data: Seq<u8>,
    pos: int,
    delim: u8,
    quote: u8,
    esc: Option<u8>,
    e: LineEnding,
    expected: Option<usize>,
    maxf: usize,
    maxr: usize,
    mode: MalformedMode,
) {
    lemma_next_record_bounds(data, pos, delim, quote, esc, e);
}

/// The kept records' fields from `pos` on, after the policies ran: the rows
/// a full sequential parse yields.
pub open spec fn spec_rows_from(
    data: Seq<u8>,
    pos: int,
    delim: u8,
    quote: u8,
    esc: Option<u8>,
    e: LineEnding,
    expected: Option<usize>,
    maxf: usize,
    maxr: usize,
    mode: MalformedMode,
) -> Seq<Seq<Seq<u8>>>
    decreases data.len() - pos,
    when 0 <= pos <= data.len()
    via spec_rows_from_dec
{
    match spec_next_record(data, pos, delim, quote, esc, e) {
        Option::None => Seq::empty(),
        Option::Some(r) => {
            let rest = spec_rows_from(data, r.1, delim, quote, esc, e, expected, maxf, maxr, mode);
            if spec_keeps(r.0, expected, maxf, maxr, mode) {
                seq![spec_processed(r.0, expected, maxf, maxr, mode)] + rest
            } else {
                rest
            }
        },
    }
}

#[via_fn]
proof fn spec_rows_from_dec(
    data: Seq<u8>,
    pos: int,
    delim: u8,
    quote: u8,
    esc: Option<u8>,
    e: LineEnding,
    expected: Option<usize>,
    maxf: usize,
    maxr: usize,
    mode: MalformedMode,
) {
    lemma_next_record_bounds(data, pos, delim, quote, esc, e);
}

/// No record from `pos` on is fatal under the mode: the pass succeeds.
pub open spec fn spec_build_ok(
    data: Seq<u8>,
    pos: int,
    delim: u8,
    quote: u8,
    esc: Option<u8>,
    e: LineEnding,
    expected: Option<usize>,
    maxf: usize,
    maxr: usize,
    mode: MalformedMode,
) -> bool
    decreases data.len() - pos,
    when 0 <= pos <= data.len()
    via spec_build_ok_dec
{
    match spec_next_record(data, pos, delim, quote, esc, e) {
        Option::None => true,
        Option::Some(r) => !spec_fatal(r.0, expected, maxf, maxr, mode) && spec_build_ok(
            data,
            r.1,
            delim,
            quote,
            esc,
            e,
            expected,
            maxf,
            maxr,
            mode,
        ),
    }
}

#[via_fn]
proof fn spec_build_ok_dec(
    data: Seq<u8>,
    pos: int,
    delim: u8,
    quote: u8,
    esc: Option<u8>,
    e: LineEnding,
    expected: Option<usize>,
    maxf: usize,
    maxr: usize,
    mode: MalformedMode,
) {
    lemma_next_record_bounds(data, pos, delim, quote, esc, e);
}

/// The stamped warning descriptors the indexing pass generates from `pos`
/// on, with `idx` the ordinal of the next record.
pub open spec fn spec_build_warns(
    data: Seq<u8>,
    pos: int,
    idx: int,
    delim: u8,
    quote: u8,
    esc: Option<u8>,
    e: LineEnding,
    expected: Option<usize>,
    maxf: usize,
    maxr: usize,
    mode: MalformedMode,
) -> Seq<(crate::policy::WarningKind, Option<u64>, Option<u64>, u64, u64)>
    decreases data.len() - pos,
    when 0 <= pos <= data.len()
    via spec_build_warns_dec
{
    match spec_next_record(data, pos, delim, quote, esc, e) {
        Option::None => Seq::empty(),
        Option::Some(r) => crate::policy::spec_stamped(
            crate::policy::spec_policy_warnings(r.0, expected, maxf, maxr, mode),
            idx as u64,
            pos as u64,
        ) + spec_build_warns(data, r.1, idx + 1, delim, quote, esc, e, expected, maxf, maxr, mode),
    }
}

#[via_fn]
proof fn spec_build_warns_dec(
    data: Seq<u8>,
    pos: int,
    idx: int,
    delim: u8,
    quote: u8,
    esc: Option<u8>,
    e: LineEnding,
    expected: Option<usize>,
    maxf: usize,
    maxr: usize,
    mode: MalformedMode,
) {
    lemma_next_record_bounds(data, pos, delim, quote, esc, e);
}

/// The offset array is strictly ascending, stays inside the file, and every
/// offset is a valid record start whose record is kept; the rows of the full
/// parse align with it one to one.
pub proof fn lemma_offsets_valid(
    data: Seq<u8>,
    pos: int,
    delim: u8,
    quote: u8,
    esc: Option<u8>,
    e: LineEnding,
    expected: Option<usize>,
    maxf: usize,
    maxr: usize,
    mode: MalformedMode,
)
    requires
        0 <= pos <= data.len(),
    ensures
        ({
            let offs = spec_offsets_from(data, pos, delim, quote, esc, e, expected, maxf, maxr, mode);
            let rows = spec_rows_from(data, pos, delim, quote, esc, e, expected, maxf, maxr, mode);
            &&& rows.len() == offs.len()
            &&& forall|k: int| 0 <= k < offs.len() ==> pos <= #[trigger] offs[k] < data.len()
            &&& forall|k: int| 0 <= k < offs.len() - 1 ==> #[trigger] offs[k] < offs[k + 1]
            &&& forall|k: int|
                0 <= k < offs.len() ==> match spec_next_record(
                    data,
                    #[trigger] offs[k],
                    delim,
                    quote,
                    esc,
                    e,
                ) {
                    Option::Some(r) => spec_keeps(r.0, expected, maxf, maxr, mode)
                        && spec_processed(r.0, expected, maxf, maxr, mode) == rows[k],
                    Option::None => false,
                }
        }),
    decreases data.len() - pos,
{
    lemma_next_record_bounds(data, pos, delim, quote, esc, e);
    match spec_next_record(data, pos, delim, quote, esc, e) {
        Option::None => {},
        Option::Some(r) => {
            lemma_offsets_valid(data, r.1, delim, quote, esc, e, expected, maxf, maxr, mode);
            let offs = spec_offsets_from(data, pos, delim, quote, esc, e, expected, maxf, maxr, mode);
            let rest = spec_offsets_from(data, r.1, delim, quote, esc, e, expected, maxf, maxr, mode);
            if spec_keeps(r.0, expected, maxf, maxr, mode) {
                assert(offs == seq![pos] + rest);
                assert(offs[0] == pos);
                assert(forall|k: int| 0 <= k < rest.len() ==> offs[k + 1] == #[trigger] rest[k]);
            }
        },
    }
}

/// Outside the strict mode no record is fatal, so the pass always succeeds.
pub proof fn lemma_build_ok_nonstrict(
    data: Seq<u8>,
    pos: int,
    delim: u8,
    quote: u8,
    esc: Option<u8>,
    e: LineEnding,
    expected: Option<usize>,
    maxf: usize,
    maxr: usize,
    mode: MalformedMode,
)
    requires
        0 <= pos <= data.len(),
        mode != MalformedMode::Strict,
    ensures
        spec_build_ok(data, pos, delim, quote, esc, e, expected, maxf, maxr, mode),
    decreases data.len() - pos,
{
    lemma_next_record_bounds(data, pos, delim, quote, esc, e);
    match spec_next_record(data, pos, delim, quote, esc, e) {
        Option::None => {},
        Option::Some(r) => {
            lemma_build_ok_nonstrict(data, r.1, delim, quote, esc, e, expected, maxf, maxr, mode);
        },
    }
}

/// Warnings only grow, keep their prefix, and respect the bound.
pub open spec fn warnings_grown(before: Seq<ParseWarning>, after: Seq<ParseWarning>) -> bool {
    &&& before.len() <= after.len()
    &&& forall|k: int| 0 <= k < before.len() ==> after[k] == before[k]
    &&& (after.len() > before.len() ==> after.len() <= MAX_WARNING_COUNT)
}

/// One sequential pass over the file: consume the header when present, apply
/// the policies to every record, and return the byte offset of each kept
/// record; every ten thousand records the callback receives the running
/// kept-row count. Fails if and only if some record is fatal under the mode.
pub fn build_row_offsets_with_progress<F: Fn(u64)>(
    data: &[u8],
    s: &ParseSettings,
    expected: Option<usize>,
    warnings: &mut Vec<ParseWarning>,
    progress: F,
) -> (r: Result<Vec<u64>, crate::policy::CsvError>)
    requires
        forall|x: u64| call_requires(progress, (x,)),
    ensures
        ({
            let start = spec_body_start(
                data@,
                s.delimiter,
                s.quote,
                s.escape,
                s.line_ending,
                s.has_headers,
            );
            &&& warnings_grown(old(warnings)@, final(warnings)@)
            &&& (r is Ok <==> spec_build_ok(
                data@,
                start,
                s.delimiter,
                s.quote,
                s.escape,
                s.line_ending,
                expected,
                s.max_field_size,
                s.max_record_size,
                s.malformed,
            ))
            &&& (r matches Result::Ok(offs) ==> offs@.map_values(|x: u64| x as int)
                == spec_offsets_from(
                data@,
                start,
                s.delimiter,
                s.quote,
                s.escape,
                s.line_ending,
                expected,
                s.max_field_size,
                s.max_record_size,
                s.malformed,
            ))
            &&& (r is Ok ==> crate::policy::warnings_match(
                old(warnings)@,
                final(warnings)@,
                spec_build_warns(
                    data@,
                    start,
                    0,
                    s.delimiter,
                    s.quote,
                    s.escape,
                    s.line_ending,
                    expected,
                    s.max_field_size,
                    s.max_record_size,
                    s.malformed,
                ),
            ))
        }),
{
    let delim = s.delimiter;
    let quote = s.quote;
    let esc = s.escape;
    let e = s.line_ending;
    let maxf = s.max_field_size;
    let maxr = s.max_record_size;
    let mode = s.malformed;
    let body_start: usize = if s.has_headers {
        match next_record(data, 0, delim, quote, esc, e) {
            Some(hr) => hr.1,
            None => data.len(),
        }
    } else {
        0
    };
    proof {
        lemma_next_record_bounds(data@, 0, delim, quote, esc, e);
    }
    let ghost start = body_start as int;
    let mut pos: usize = body_start;
    let mut offsets: Vec<u64> = Vec::new();
    let mut row: u64 = 0;
    let ghost mut done: Seq<(crate::policy::WarningKind, Option<u64>, Option<u64>, u64, u64)> =
        Seq::empty();
    loop
        invariant
            forall|x: u64| call_requires(progress, (x,)),
            delim == s.delimiter,
            quote == s.quote,
            esc == s.escape,
            e == s.line_ending,
            maxf == s.max_field_size,
            maxr == s.max_record_size,
            mode == s.malformed,
            start == spec_body_start(data@, s.delimiter, s.quote, s.escape, s.line_ending, s.has_headers),
            start <= pos as int <= data@.len(),
            0 <= start <= data@.len(),
            row <= pos as u64,
            row as int <= pos as int,
            warnings_grown(old(warnings)@, warnings@),
            crate::policy::warnings_match(old(warnings)@, warnings@, done),
            spec_build_warns(
                data@,
                start,
                0,
                delim,
                quote,
                esc,
                e,
                expected,
                maxf,
                maxr,
                mode,
            ) == done + spec_build_warns(
                data@,
                pos as int,
                row as int,
                delim,
                quote,
                esc,
                e,
                expected,
                maxf,
                maxr,
                mode,
            ),
            spec_offsets_from(data@, start, delim, quote, esc, e, expected, maxf, maxr, mode)
                == offsets@.map_values(|x: u64| x as int) + spec_offsets_from(
                data@,
                pos as int,
                delim,
                quote,
                esc,
                e,
                expected,
                maxf,
                maxr,
                mode,
            ),
            spec_build_ok(data@, start, delim, quote, esc, e, expected, maxf, maxr, mode)
                <==> spec_build_ok(data@, pos as int, delim, quote, esc, e, expected, maxf, maxr, mode),
        decreases data@.len() - pos,
    {
        let ghost pre_offs = offsets@.map_values(|x: u64| x as int);
        match next_record(data, pos, delim, quote, esc, e) {
            None => {
                proof {
                    assert(spec_offsets_from(
                        data@,
                        pos as int,
                        delim,
                        quote,
                        esc,
                        e,
                        expected,
                        maxf,
                        maxr,
                        mode,
                    ) =~= Seq::<int>::empty());
                    assert(pre_offs + Seq::<int>::empty() =~= pre_offs);
                    assert(spec_build_ok(
                        data@,
                        pos as int,
                        delim,
                        quote,
                        esc,
                        e,
                        expected,
                        maxf,
                        maxr,
                        mode,
                    ));
                    assert(spec_build_warns(
                        data@,
                        pos as int,
                        row as int,
                        delim,
                        quote,
                        esc,
                        e,
                        expected,
                        maxf,
                        maxr,
                        mode,
                    ) =~= Seq::<(crate::policy::WarningKind, Option<u64>, Option<u64>, u64, u64)>::empty());
                    assert(done + Seq::<(crate::policy::WarningKind, Option<u64>, Option<u64>, u64, u64)>::empty() =~= done);
                }
                return Ok(offsets);
            },
            Some(fe) => {
                let (fields, end) = fe;
                proof {
                    lemma_next_record_bounds(data@, pos as int, delim, quote, esc, e);
                }
                let ghost fsv = crate::record::rows_bytes_view(fields);
                let ghost w_pre = warnings@;
                let keep = match process_record(fields, expected, s, row, pos as u64, warnings) {
                    Ok(kept) => kept.is_some(),
                    Err(err) => {
                        proof {
                            assert(spec_fatal(fsv, expected, maxf, maxr, mode));
                            assert(!spec_build_ok(
                                data@,
                                pos as int,
                                delim,
                                quote,
                                esc,
                                e,
                                expected,
                                maxf,
                                maxr,
                                mode,
                            ));
                        }
                        return Err(err);
                    },
                };
                proof {
                    assert(!spec_fatal(fsv, expected, maxf, maxr, mode));
                    assert(spec_keeps(fsv, expected, maxf, maxr, mode) == keep);
                    assert(spec_build_ok(data@, pos as int, delim, quote, esc, e, expected, maxf, maxr, mode)
                        <==> spec_build_ok(data@, end as int, delim, quote, esc, e, expected, maxf, maxr, mode));
                    let policy_descs = crate::policy::spec_policy_warnings(
                        fsv,
                        expected,
                        maxf,
                        maxr,
                        mode,
                    );
                    let stamped = crate::policy::spec_stamped(policy_descs, row, pos as u64);
                    crate::policy::lemma_extended_is_match(
                        w_pre,
                        warnings@,
                        policy_descs,
                        row,
                        pos as u64,
                    );
                    crate::policy::lemma_match_compose(
                        old(warnings)@,
                        w_pre,
                        warnings@,
                        done,
                        stamped,
                    );
                    assert(spec_build_warns(
                        data@,
                        pos as int,
                        row as int,
                        delim,
                        quote,
                        esc,
                        e,
                        expected,
                        maxf,
                        maxr,
                        mode,
                    ) == stamped + spec_build_warns(
                        data@,
                        end as int,
                        row as int + 1,
                        delim,
                        quote,
                        esc,
                        e,
                        expected,
                        maxf,
                        maxr,
                        mode,
                    ));
                    assert((done + stamped) + spec_build_warns(
                        data@,
                        end as int,
                        row as int + 1,
                        delim,
                        quote,
                        esc,
                        e,
                        expected,
                        maxf,
                        maxr,
                        mode,
                    ) =~= done + (stamped + spec_build_warns(
                        data@,
                        end as int,
                        row as int + 1,
                        delim,
                        quote,
                        esc,
                        e,
                        expected,
                        maxf,
                        maxr,
                        mode,
                    )));
                    done = done + stamped;
                }
                if row % 10000 == 0 {
                    progress(offsets.len() as u64);
                }
                if keep {
                    offsets.push(pos as u64);
                    proof {
                        assert(offsets@.map_values(|x: u64| x as int) =~= pre_offs.push(
                            pos as int,
                        ));
                        let rest = spec_offsets_from(
                            data@,
                            end as int,
                            delim,
                            quote,
                            esc,
                            e,
                            expected,
                            maxf,
                            maxr,
                            mode,
                        );
                        assert(pre_offs + (seq![pos as int] + rest) =~= pre_offs.push(pos as int)
                            + rest);
                    }
                }
                pos = end;
                row = row + 1;
            },
        }
    }
}

/// The indexing pass without progress reporting.
pub fn build_row_offsets(
    data: &[u8],
    s: &ParseSettings,
    expected: Option<usize>,
    warnings: &mut Vec<ParseWarning>,
) -> (r: Result<Vec<u64>, crate::policy::CsvError>)
    ensures
        ({
            let start = spec_body_start(
                data@,
                s.delimiter,
                s.quote,
                s.escape,
                s.line_ending,
                s.has_headers,
            );
            &&& warnings_grown(old(warnings)@, final(warnings)@)
            &&& (r is Ok <==> spec_build_ok(
                data@,
                start,
                s.delimiter,
                s.quote,
                s.escape,
                s.line_ending,
                expected,
                s.max_field_size,
                s.max_record_size,
                s.malformed,
            ))
            &&& (r matches Result::Ok(offs) ==> offs@.map_values(|x: u64| x as int)
                == spec_offsets_from(
                data@,
                start,
                s.delimiter,
                s.quote,
                s.escape,
                s.line_ending,
                expected,
                s.max_field_size,
                s.max_record_size,
                s.malformed,
            ))
            &&& (r is Ok ==> crate::policy::warnings_match(
                old(warnings)@,
                final(warnings)@,
                spec_build_warns(
                    data@,
                    start,
                    0,
                    s.delimiter,
                    s.quote,
                    s.escape,
                    s.line_ending,
                    expected,
                    s.max_field_size,
                    s.max_record_size,
                    s.malformed,
                ),
            ))
        }),
{
    build_row_offsets_with_progress(data, s, expected, warnings, |_count: u64| ())
}

} // verus!
