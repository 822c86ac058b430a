//! Random-access reads: decode individual rows or contiguous ranges through
//! the offset array, re-applying the malformed-row policies at read time.

use vstd::prelude::*;

use crate::dialect::{MalformedMode, ParseSettings};
use crate::offsets::{spec_body_start, warnings_grown};
use crate::policy::{
    process_record, push_warning, spec_fatal, spec_keeps, spec_processed, CsvError, ParseWarning,
    WarningKind,
};
use crate::record::{next_record, rows_bytes_view, spec_next_record};
use crate::text::{decode_field, decode_had_errors, decoded_text};

verus! {

/// The text of one row: each byte field decoded with the dialect's encoding.
pub open spec fn spec_decode_row(label: Seq<char>, fields: Seq<Seq<u8>>) -> Seq<Seq<char>> {
    Seq::new(fields.len(), |k: int| decoded_text(label, fields[k]))
}

/// Whether any field of the row fails to decode cleanly.
pub open spec fn spec_row_errors(label: Seq<char>, fields: Seq<Seq<u8>>) -> bool {
    exists|k: int| 0 <= k < fields.len() && decode_had_errors(label, #[trigger] fields[k])
}

/// The character view of a decoded row.
pub open spec fn row_text_view(r: Vec<String>) -> Seq<Seq<char>> {
    Seq::new(r@.len(), |j: int| r@[j]@)
}

/// The character view of a list of decoded rows.
pub open spec fn rows_text_view(v: Vec<Vec<String>>) -> Seq<Seq<Seq<char>>> {
    Seq::new(v@.len(), |i: int| row_text_view(v@[i]))
}

/// Decode every field of a record; also reports whether any field had
/// malformed input under the dialect's encoding.
pub fn decode_fields(label: &str, fields: &Vec<Vec<u8>>) -> (r: (Vec<String>, bool))
    ensures
        row_text_view(r.0) == spec_decode_row(label@, rows_bytes_view(*fields)),
        r.1 == spec_row_errors(label@, rows_bytes_view(*fields)),
{
    let ghost fv = rows_bytes_view(*fields);
    let mut out: Vec<String> = Vec::new();
    let mut had_errors = false;
    let mut i: usize = 0;
    while i < fields.len()
        invariant
            0 <= i <= fields@.len(),
            fv == rows_bytes_view(*fields),
            out@.len() == i,
            forall|k: int| 0 <= k < i ==> row_text_view(out)[k] == decoded_text(label@, fv[k]),
            had_errors == exists|k: int|
                0 <= k < i && decode_had_errors(label@, #[trigger] fv[k]),
        decreases fields@.len() - i,
    {
        let ghost pre = row_text_view(out);
        let (text, errs) = decode_field(label, fields[i].as_slice());
        let ghost tv = text@;
        out.push(text);
        if errs {
            had_errors = true;
        }
        i = i + 1;
        proof {
            let post = row_text_view(out);
            let j = i - 1;
            assert forall|k: int| 0 <= k < i implies post[k] == decoded_text(label@, fv[k]) by {
                if k < j {
                    assert(post[k] == pre[k]);
                } else {
                    assert(post[k] == tv);
                }
            }
            if errs {
                assert(decode_had_errors(label@, fv[j]));
            }
            if !had_errors {
                assert forall|k: int| 0 <= k < i implies !decode_had_errors(
                    label@,
                    #[trigger] fv[k],
                ) by {
                    if k < j {
                        assert(!(0 <= k < j && decode_had_errors(label@, fv[k])));
                    }
                }
            }
        }
    }
    proof {
        assert(row_text_view(out) =~= spec_decode_row(label@, fv));
    }
    (out, had_errors)
}

/// Every offset points inside the data and starts a record there.
pub open spec fn offsets_wf(data: Seq<u8>, offsets: Seq<u64>, s: ParseSettings) -> bool {
    forall|k: int|
        0 <= k < offsets.len() ==> #[trigger] offsets[k] <= data.len() && spec_next_record(
            data,
            offsets[k] as int,
            s.delimiter,
            s.quote,
            s.escape,
            s.line_ending,
        ) is Some
}

/// The rows that reading positions `[i, end)` of the offset array yields:
/// each record parsed at its offset, passed through the policies, and
/// decoded; skipped records contribute nothing.
pub open spec fn spec_rows_at(
    data: Seq<u8>,
    offsets: Seq<u64>,
    i: int,
    end: int,
    s: ParseSettings,
    expected: Option<usize>,
) -> Seq<Seq<Seq<char>>>
    decreases end - i,
{
    if !(0 <= i < end && i < offsets.len()) {
        Seq::empty()
    } else {
        let rest = spec_rows_at(data, offsets, i + 1, end, s, expected);
        match spec_next_record(data, offsets[i] as int, s.delimiter, s.quote, s.escape, s.line_ending) {
            Option::None => rest,
            Option::Some(r) => {
                if spec_keeps(r.0, expected, s.max_field_size, s.max_record_size, s.malformed) {
                    seq![
                        spec_decode_row(
                            s.encoding_label@,
                            spec_processed(r.0, expected, s.max_field_size, s.max_record_size, s.malformed),
                        ),
                    ] + rest
                } else {
                    rest
                }
            },
        }
    }
}

/// Reading positions `[i, end)` hits no fatal record: under the strict mode
/// no record in the range violates a policy or fails to decode.
pub open spec fn spec_read_ok(
    data: Seq<u8>,
    offsets: Seq<u64>,
    i: int,
    end: int,
    s: ParseSettings,
    expected: Option<usize>,
) -> bool
    decreases end - i,
{
    if !(0 <= i < end && i < offsets.len()) {
        true
    } else {
        let rest = spec_read_ok(data, offsets, i + 1, end, s, expected);
        match spec_next_record(data, offsets[i] as int, s.delimiter, s.quote, s.escape, s.line_ending) {
            Option::None => rest,
            Option::Some(r) => !spec_fatal(
                r.0,
                expected,
                s.max_field_size,
                s.max_record_size,
                s.malformed,
            ) && !(s.malformed == MalformedMode::Strict && spec_row_errors(s.encoding_label@, r.0))
                && rest,
        }
    }
}

/// The stamped warning descriptors reading one position generates: a
/// decode warning when a field is malformed under the encoding, then the
/// policy warnings, all stamped with the row id and byte offset.
pub open spec fn spec_row_warns(
    data: Seq<u8>,
    offsets: Seq<u64>,
    i: int,
    s: ParseSettings,
    expected: Option<usize>,
) -> Seq<(WarningKind, Option<u64>, Option<u64>, u64, u64)> {
    match spec_next_record(data, offsets[i] as int, s.delimiter, s.quote, s.escape, s.line_ending) {
        Option::None => Seq::empty(),
        Option::Some(r) => (if spec_row_errors(s.encoding_label@, r.0) {
            seq![
                (
                    WarningKind::Utf8,
                    Option::<u64>::None,
                    Option::<u64>::None,
                    i as u64,
                    offsets[i],
                ),
            ]
        } else {
            Seq::empty()
        }) + crate::policy::spec_stamped(
            crate::policy::spec_policy_warnings(
                r.0,
                expected,
                s.max_field_size,
                s.max_record_size,
                s.malformed,
            ),
            i as u64,
            offsets[i],
        ),
    }
}

/// The warning descriptors of reading positions `[i, end)`, in order.
pub open spec fn spec_warns_range(
    data: Seq<u8>,
    offsets: Seq<u64>,
    i: int,
    end: int,
    s: ParseSettings,
    expected: Option<usize>,
) -> Seq<(WarningKind, Option<u64>, Option<u64>, u64, u64)>
    decreases end - i,
{
    if !(0 <= i < end && i < offsets.len()) {
        Seq::empty()
    } else {
        spec_row_warns(data, offsets, i, s, expected) + spec_warns_range(
            data,
            offsets,
            i + 1,
            end,
            s,
            expected,
        )
    }
}

/// Extending the read range by one position appends its descriptors.
pub proof fn lemma_warns_snoc(
    data: Seq<u8>,
    offsets: Seq<u64>,
    a: int,
    i: int,
    s: ParseSettings,
    expected: Option<usize>,
)
    requires
        0 <= a <= i < offsets.len(),
    ensures
        spec_warns_range(data, offsets, a, i + 1, s, expected) == spec_warns_range(
            data,
            offsets,
            a,
            i,
            s,
            expected,
        ) + spec_row_warns(data, offsets, i, s, expected),
    decreases i - a,
{
    if a == i {
        assert(spec_warns_range(data, offsets, i + 1, i + 1, s, expected) =~= Seq::<
            (WarningKind, Option<u64>, Option<u64>, u64, u64),
        >::empty());
        assert(spec_warns_range(data, offsets, a, i, s, expected) =~= Seq::<
            (WarningKind, Option<u64>, Option<u64>, u64, u64),
        >::empty());
        assert(spec_warns_range(data, offsets, a, i + 1, s, expected) =~= spec_warns_range(
            data,
            offsets,
            a,
            i,
            s,
            expected,
        ) + spec_row_warns(data, offsets, i, s, expected));
    } else {
        lemma_warns_snoc(data, offsets, a + 1, i, s, expected);
        assert(spec_warns_range(data, offsets, a, i + 1, s, expected) =~= spec_warns_range(
            data,
            offsets,
            a,
            i,
            s,
            expected,
        ) + spec_row_warns(data, offsets, i, s, expected));
    }
}

/// Read the contiguous row range `[start, start + count)` through the offset
/// array: seek to each offset, parse the record there, re-apply the policies,
/// and decode the kept rows. Rows past the end of the array are simply absent.
pub fn read_chunk_with_offsets(
    data: &[u8],
    offsets: &Vec<u64>,
    start: usize,
    count: usize,
    s: &ParseSettings,
    expected: Option<usize>,
    warnings: &mut Vec<ParseWarning>,
) -> (r: Result<Vec<Vec<String>>, CsvError>)
    requires
        offsets_wf(data@, offsets@, *s),
    ensures
        warnings_grown(old(warnings)@, final(warnings)@),
        ({
            let end = if start + count <= offsets@.len() {
                start + count
            } else {
                offsets@.len() as int
            };
            &&& (r is Ok <==> spec_read_ok(data@, offsets@, start as int, end, *s, expected))
            &&& (r matches Result::Ok(rows) ==> rows_text_view(rows) == spec_rows_at(
                data@,
                offsets@,
                start as int,
                end,
                *s,
                expected,
            ))
            &&& (r is Ok ==> crate::policy::warnings_match(
                old(warnings)@,
                final(warnings)@,
                spec_warns_range(data@, offsets@, start as int, end, *s, expected),
            ))
        }),
{
    let ghost end = if start + count <= offsets@.len() {
        start + count as int
    } else {
        offsets@.len() as int
    };
    let mut rows: Vec<Vec<String>> = Vec::new();
    if start >= offsets.len() || count == 0 {
        assert(rows_text_view(rows) =~= Seq::<Seq<Seq<char>>>::empty());
        proof {
            assert(spec_warns_range(data@, offsets@, start as int, end, *s, expected) =~= Seq::<
                (WarningKind, Option<u64>, Option<u64>, u64, u64),
            >::empty());
        }
        return Ok(rows);
    }
    let last: usize = if count <= offsets.len() - start {
        start + count
    } else {
        offsets.len()
    };
    let mut i: usize = start;
    while i < last
        invariant
            offsets_wf(data@, offsets@, *s),
            start <= i <= last <= offsets@.len(),
            last == end,
            end == (if start + count <= offsets@.len() {
                start + count as int
            } else {
                offsets@.len() as int
            }),
            warnings_grown(old(warnings)@, warnings@),
            crate::policy::warnings_match(
                old(warnings)@,
                warnings@,
                spec_warns_range(data@, offsets@, start as int, i as int, *s, expected),
            ),
            spec_rows_at(data@, offsets@, start as int, end, *s, expected) == rows_text_view(rows)
                + spec_rows_at(data@, offsets@, i as int, end, *s, expected),
            spec_read_ok(data@, offsets@, start as int, end, *s, expected) <==> spec_read_ok(
                data@,
                offsets@,
                i as int,
                end,
                *s,
                expected,
            ),
        decreases last - i,
    {
        let n = data.len();
        let off64 = offsets[i];
        assert(off64 <= data@.len() && spec_next_record(
            data@,
            offsets@[i as int] as int,
            s.delimiter,
            s.quote,
            s.escape,
            s.line_ending,
        ) is Some);
        assert(off64 <= n as u64);
        let off = off64 as usize;
        assert(off as int == off64 as int);
        let ghost pre_rows = rows_text_view(rows);
        let ghost rest_rows = spec_rows_at(data@, offsets@, i + 1, end, *s, expected);
        let ghost w_iter0 = warnings@;
        match next_record(data, off, s.delimiter, s.quote, s.escape, s.line_ending) {
            None => {
                assert(false);
            },
            Some(fe) => {
                let (fields, _) = fe;
                let ghost fsv = rows_bytes_view(fields);
                let (_, raw_errs) = decode_fields(s.encoding_label.as_str(), &fields);
                if raw_errs {
                    push_warning(
                        warnings,
                        ParseWarning {
                            record: Some(i as u64),
                            line: None,
                            byte: Some(off64),
                            field: None,
                            kind: WarningKind::Utf8,
                            message: String::from_str("Record contains invalid encoding"),
                            expected_len: None,
                            len: None,
                        },
                    );
                    if s.malformed == MalformedMode::Strict {
                        proof {
                            assert(spec_row_errors(s.encoding_label@, fsv));
                            assert(!spec_read_ok(data@, offsets@, i as int, end, *s, expected));
                        }
                        return Err(CsvError::Encoding);
                    }
                }
                let ghost ud: Seq<(WarningKind, Option<u64>, Option<u64>, u64, u64)> = if raw_errs {
                    seq![
                        (
                            WarningKind::Utf8,
                            Option::<u64>::None,
                            Option::<u64>::None,
                            i as u64,
                            off64,
                        ),
                    ]
                } else {
                    Seq::empty()
                };
                let ghost w_mid = warnings@;
                proof {
                    assert(crate::policy::warnings_match(w_iter0, w_mid, ud));
                }
                match process_record(fields, expected, s, i as u64, off64, warnings) {
                    Err(err) => {
                        proof {
                            assert(spec_fatal(
                                fsv,
                                expected,
                                s.max_field_size,
                                s.max_record_size,
                                s.malformed,
                            ));
                            assert(!spec_read_ok(data@, offsets@, i as int, end, *s, expected));
                        }
                        return Err(err);
                    },
                    Ok(None) => {
                        proof {
                            assert(!spec_keeps(
                                fsv,
                                expected,
                                s.max_field_size,
                                s.max_record_size,
                                s.malformed,
                            ));
                            assert(spec_rows_at(data@, offsets@, i as int, end, *s, expected)
                                == rest_rows);
                        }
                    },
                    Ok(Some(pf)) => {
                        let (text_row, _) = decode_fields(s.encoding_label.as_str(), &pf);
                        let ghost tv = row_text_view(text_row);
                        rows.push(text_row);
                        proof {
                            assert(tv == spec_decode_row(
                                s.encoding_label@,
                                spec_processed(
                                    fsv,
                                    expected,
                                    s.max_field_size,
                                    s.max_record_size,
                                    s.malformed,
                                ),
                            ));
                            assert(spec_rows_at(data@, offsets@, i as int, end, *s, expected)
                                == seq![tv] + rest_rows);
                            assert(rows_text_view(rows) =~= pre_rows.push(tv));
                            assert(pre_rows + (seq![tv] + rest_rows) =~= pre_rows.push(tv)
                                + rest_rows);
                        }
                    },
                }
                proof {
                    let policy_descs = crate::policy::spec_policy_warnings(
                        fsv,
                        expected,
                        s.max_field_size,
                        s.max_record_size,
                        s.malformed,
                    );
                    crate::policy::lemma_extended_is_match(
                        w_mid,
                        warnings@,
                        policy_descs,
                        i as u64,
                        off64,
                    );
                    crate::policy::lemma_match_compose(
                        w_iter0,
                        w_mid,
                        warnings@,
                        ud,
                        crate::policy::spec_stamped(policy_descs, i as u64, off64),
                    );
                    assert(ud + crate::policy::spec_stamped(policy_descs, i as u64, off64)
                        =~= spec_row_warns(data@, offsets@, i as int, *s, expected));
                    crate::policy::lemma_match_compose(
                        old(warnings)@,
                        w_iter0,
                        warnings@,
                        spec_warns_range(data@, offsets@, start as int, i as int, *s, expected),
                        spec_row_warns(data@, offsets@, i as int, *s, expected),
                    );
                    lemma_warns_snoc(data@, offsets@, start as int, i as int, *s, expected);
                }
            },
        }
        i = i + 1;
    }
    proof {
        assert(spec_rows_at(data@, offsets@, last as int, end, *s, expected) =~= Seq::<
            Seq<Seq<char>>,
        >::empty());
        assert(rows_text_view(rows) + Seq::<Seq<Seq<char>>>::empty() =~= rows_text_view(rows));
    }
    Ok(rows)
}

/// Outside the strict mode a read through the offset array always succeeds.
pub proof fn lemma_read_ok_nonstrict(
    data: Seq<u8>,
    offsets: Seq<u64>,
    i: int,
    end: int,
    s: ParseSettings,
    expected: Option<usize>,
)
    requires
        s.malformed != MalformedMode::Strict,
    ensures
        spec_read_ok(data, offsets, i, end, s, expected),
    decreases end - i,
{
    if 0 <= i < end && i < offsets.len() {
        lemma_read_ok_nonstrict(data, offsets, i + 1, end, s, expected);
    }
}

/// Read rows `[start, start + count)` of a file that has no offset array
/// yet: one sequential pass indexes the kept records, then the range is read
/// through those offsets, so the result is exactly that slice of the full
/// sequential parse. Only the strict mode can fail.
pub fn read_chunk(
    data: &[u8],
    start: usize,
    count: usize,
    s: &ParseSettings,
    expected: Option<usize>,
    warnings: &mut Vec<ParseWarning>,
) -> (r: Result<Vec<Vec<String>>, CsvError>)
    ensures
        warnings_grown(old(warnings)@, final(warnings)@),
        s.malformed != MalformedMode::Strict ==> r is Ok,
        r matches Result::Ok(rows) ==> ({
            let full = spec_full_text(data@, *s, expected);
            let a = if start <= full.len() {
                start as int
            } else {
                full.len() as int
            };
            let b = if start + count <= full.len() {
                start + count
            } else {
                full.len() as int
            };
            rows_text_view(rows) == full.subrange(a, b)
        }),
        r is Ok ==> ({
            let start0 = spec_body_start(
                data@,
                s.delimiter,
                s.quote,
                s.escape,
                s.line_ending,
                s.has_headers,
            );
            let offs = spec_offsets_u64(data@, *s, expected);
            let end = if start + count <= offs.len() {
                start + count
            } else {
                offs.len() as int
            };
            crate::policy::warnings_match(
                old(warnings)@,
                final(warnings)@,
                crate::offsets::spec_build_warns(
                    data@,
                    start0,
                    0,
                    s.delimiter,
                    s.quote,
                    s.escape,
                    s.line_ending,
                    expected,
                    s.max_field_size,
                    s.max_record_size,
                    s.malformed,
                ) + spec_warns_range(data@, offs, start as int, end, *s, expected),
            )
        }),
{
    let n = data.len();
    assert(data@.len() <= u64::MAX);
    proof {
        if s.malformed != MalformedMode::Strict {
            crate::record::lemma_next_record_bounds(
                data@,
                0,
                s.delimiter,
                s.quote,
                s.escape,
                s.line_ending,
            );
            crate::offsets::lemma_build_ok_nonstrict(
                data@,
                spec_body_start(data@, s.delimiter, s.quote, s.escape, s.line_ending, s.has_headers),
                s.delimiter,
                s.quote,
                s.escape,
                s.line_ending,
                expected,
                s.max_field_size,
                s.max_record_size,
                s.malformed,
            );
        }
    }
    let offs = match crate::offsets::build_row_offsets(data, s, expected, warnings) {
        Ok(offs) => offs,
        Err(err) => {
            return Err(err);
        },
    };
    proof {
        crate::record::lemma_next_record_bounds(
            data@,
            0,
            s.delimiter,
            s.quote,
            s.escape,
            s.line_ending,
        );
        let start0 = spec_body_start(
            data@,
            s.delimiter,
            s.quote,
            s.escape,
            s.line_ending,
            s.has_headers,
        );
        crate::offsets::lemma_offsets_valid(
            data@,
            start0,
            s.delimiter,
            s.quote,
            s.escape,
            s.line_ending,
            expected,
            s.max_field_size,
            s.max_record_size,
            s.malformed,
        );
        assert(offs@ =~= spec_offsets_u64(data@, *s, expected));
        assert forall|k: int| 0 <= k < offs@.len() implies #[trigger] offs@[k] <= data@.len()
            && spec_next_record(
            data@,
            offs@[k] as int,
            s.delimiter,
            s.quote,
            s.escape,
            s.line_ending,
        ) is Some by {
            let oi = crate::offsets::spec_offsets_from(
                data@,
                start0,
                s.delimiter,
                s.quote,
                s.escape,
                s.line_ending,
                expected,
                s.max_field_size,
                s.max_record_size,
                s.malformed,
            );
            assert(offs@.map_values(|x: u64| x as int)[k] == oi[k]);
        }
    }
    proof {
        if s.malformed != MalformedMode::Strict {
            lemma_read_ok_nonstrict(
                data@,
                offs@,
                start as int,
                if start + count <= offs@.len() {
                    start + count as int
                } else {
                    offs@.len() as int
                },
                *s,
                expected,
            );
        }
    }
    let ghost w_after_build = warnings@;
    let out = match read_chunk_with_offsets(data, &offs, start, count, s, expected, warnings) {
        Ok(out) => out,
        Err(err) => {
            return Err(err);
        },
    };
    proof {
        let start0 = spec_body_start(
            data@,
            s.delimiter,
            s.quote,
            s.escape,
            s.line_ending,
            s.has_headers,
        );
        let end = if start + count <= offs@.len() {
            start + count as int
        } else {
            offs@.len() as int
        };
        crate::policy::lemma_match_compose(
            old(warnings)@,
            w_after_build,
            warnings@,
            crate::offsets::spec_build_warns(
                data@,
                start0,
                0,
                s.delimiter,
                s.quote,
                s.escape,
                s.line_ending,
                expected,
                s.max_field_size,
                s.max_record_size,
                s.malformed,
            ),
            spec_warns_range(data@, offs@, start as int, end, *s, expected),
        );
    }
    proof {
        let full = spec_full_text(data@, *s, expected);
        let a = if start <= full.len() {
            start as int
        } else {
            full.len() as int
        };
        let b = if start + count <= full.len() {
            start + count as int
        } else {
            full.len() as int
        };
        lemma_read_matches_full_parse(data@, *s, expected, a, b);
        if start as int != a || (start + count) as int != b {
            assert(spec_rows_at(data@, offs@, start as int, b, *s, expected) == spec_rows_at(
                data@,
                offs@,
                a,
                b,
                *s,
                expected,
            ));
        }
    }
    Ok(out)
}

/// The header row: the decoded first record when headers are enabled, a
/// synthesized name per field of the first record otherwise, and nothing
/// for a file of blank lines. A field that fails to decode cleanly leaves
/// a warning, never an error.
pub fn get_headers(data: &[u8], s: &ParseSettings, warnings: &mut Vec<ParseWarning>) -> (r: Vec<
    String,
>)
    ensures
        warnings_grown(old(warnings)@, final(warnings)@),
        match spec_next_record(data@, 0, s.delimiter, s.quote, s.escape, s.line_ending) {
            Option::None => r@.len() == 0,
            Option::Some(rec) => if s.has_headers {
                row_text_view(r) == spec_decode_row(s.encoding_label@, rec.0)
            } else {
                r@.len() == rec.0.len() && forall|k: int|
                    0 <= k < r@.len() ==> (#[trigger] r@[k])@ == "Column "@
                        + crate::diskcache::spec_decimal(k + 1)
            },
        },
{
    match next_record(data, 0, s.delimiter, s.quote, s.escape, s.line_ending) {
        None => Vec::new(),
        Some(fe) => {
            let (fields, _) = fe;
            let ghost fsv = rows_bytes_view(fields);
            let (decoded, errs) = decode_fields(s.encoding_label.as_str(), &fields);
            if errs {
                push_warning(
                    warnings,
                    ParseWarning {
                        record: Some(0),
                        line: None,
                        byte: None,
                        field: None,
                        kind: WarningKind::Utf8,
                        message: String::from_str("Header contains invalid encoding"),
                        expected_len: None,
                        len: None,
                    },
                );
            }
            if s.has_headers {
                proof {
                    assert(row_text_view(decoded) == spec_decode_row(s.encoding_label@, fsv));
                }
                decoded
            } else {
                let n = decoded.len();
                proof {
                    assert(row_text_view(decoded).len() == decoded@.len());
                    assert(row_text_view(decoded).len() == spec_decode_row(
                        s.encoding_label@,
                        fsv,
                    ).len());
                    assert(n == fsv.len());
                }
                let mut out: Vec<String> = Vec::new();
                let mut k: usize = 0;
                while k < n
                    invariant
                        0 <= k <= n,
                        out@.len() == k,
                        forall|j: int|
                            0 <= j < k ==> (#[trigger] out@[j])@ == "Column "@
                                + crate::diskcache::spec_decimal(j + 1),
                    decreases n - k,
                {
                    let mut name = String::from_str("Column ");
                    crate::diskcache::push_decimal(&mut name, k + 1);
                    out.push(name);
                    k = k + 1;
                }
                out
            }
        },
    }
}

/// The decoded row a single position of the offset array yields, with an
/// empty row standing for out-of-range positions and skipped records.
pub open spec fn spec_row_at_index(
    data: Seq<u8>,
    offsets: Seq<u64>,
    idx: int,
    s: ParseSettings,
    expected: Option<usize>,
) -> Seq<Seq<char>> {
    if !(0 <= idx < offsets.len()) {
        Seq::empty()
    } else {
        match spec_next_record(data, offsets[idx] as int, s.delimiter, s.quote, s.escape, s.line_ending) {
            Option::None => Seq::empty(),
            Option::Some(r) => {
                if spec_keeps(r.0, expected, s.max_field_size, s.max_record_size, s.malformed) {
                    spec_decode_row(
                        s.encoding_label@,
                        spec_processed(r.0, expected, s.max_field_size, s.max_record_size, s.malformed),
                    )
                } else {
                    Seq::empty()
                }
            },
        }
    }
}

/// Reading one position hits no fatal record.
pub open spec fn spec_index_ok(
    data: Seq<u8>,
    offsets: Seq<u64>,
    idx: int,
    s: ParseSettings,
    expected: Option<usize>,
) -> bool {
    if !(0 <= idx < offsets.len()) {
        true
    } else {
        match spec_next_record(data, offsets[idx] as int, s.delimiter, s.quote, s.escape, s.line_ending) {
            Option::None => true,
            Option::Some(r) => !spec_fatal(
                r.0,
                expected,
                s.max_field_size,
                s.max_record_size,
                s.malformed,
            ) && !(s.malformed == MalformedMode::Strict && spec_row_errors(s.encoding_label@, r.0)),
        }
    }
}

/// Read a set of rows by index, decoded rows landing in the caller's order;
/// an out-of-range index or a skipped record yields an empty row in its slot.
pub fn read_rows_by_index(
    data: &[u8],
    offsets: &Vec<u64>,
    indices: &Vec<usize>,
    s: &ParseSettings,
    expected: Option<usize>,
    warnings: &mut Vec<ParseWarning>,
) -> (r: Result<Vec<Vec<String>>, CsvError>)
    requires
        offsets_wf(data@, offsets@, *s),
    ensures
        warnings_grown(old(warnings)@, final(warnings)@),
        (r is Ok <==> forall|k: int|
            0 <= k < indices@.len() ==> spec_index_ok(
                data@,
                offsets@,
                #[trigger] indices@[k] as int,
                *s,
                expected,
            )),
        r matches Result::Ok(rows) ==> rows@.len() == indices@.len() && forall|k: int|
            0 <= k < indices@.len() ==> rows_text_view(rows)[k] == spec_row_at_index(
                data@,
                offsets@,
                #[trigger] indices@[k] as int,
                *s,
                expected,
            ),
{
    let mut rows: Vec<Vec<String>> = Vec::new();
    let mut k: usize = 0;
    while k < indices.len()
        invariant
            offsets_wf(data@, offsets@, *s),
            0 <= k <= indices@.len(),
            rows@.len() == k,
            warnings_grown(old(warnings)@, warnings@),
            forall|j: int|
                0 <= j < k ==> rows_text_view(rows)[j] == spec_row_at_index(
                    data@,
                    offsets@,
                    #[trigger] indices@[j] as int,
                    *s,
                    expected,
                ),
            forall|j: int|
                0 <= j < k ==> spec_index_ok(
                    data@,
                    offsets@,
                    #[trigger] indices@[j] as int,
                    *s,
                    expected,
                ),
        decreases indices@.len() - k,
    {
        let idx = indices[k];
        let ghost pre_rows = rows_text_view(rows);
        let mut slot: Vec<String> = Vec::new();
        assert(row_text_view(slot) =~= Seq::<Seq<char>>::empty());
        if idx < offsets.len() {
            let n = data.len();
            let off64 = offsets[idx];
            assert(off64 <= data@.len() && spec_next_record(
                data@,
                offsets@[idx as int] as int,
                s.delimiter,
                s.quote,
                s.escape,
                s.line_ending,
            ) is Some);
            let off = off64 as usize;
            match next_record(data, off, s.delimiter, s.quote, s.escape, s.line_ending) {
                None => {
                    assert(false);
                },
                Some(fe) => {
                    let (fields, _) = fe;
                    let ghost fsv = rows_bytes_view(fields);
                    let (_, raw_errs) = decode_fields(s.encoding_label.as_str(), &fields);
                    if raw_errs {
                        push_warning(
                            warnings,
                            ParseWarning {
                                record: Some(idx as u64),
                                line: None,
                                byte: Some(off64),
                                field: None,
                                kind: WarningKind::Utf8,
                                message: String::from_str("Record contains invalid encoding"),
                                expected_len: None,
                                len: None,
                            },
                        );
                        if s.malformed == MalformedMode::Strict {
                            proof {
                                assert(spec_row_errors(s.encoding_label@, fsv));
                                assert(!spec_index_ok(data@, offsets@, idx as int, *s, expected));
                            }
                            return Err(CsvError::Encoding);
                        }
                    }
                    match process_record(fields, expected, s, idx as u64, off64, warnings) {
                        Err(err) => {
                            proof {
                                assert(spec_fatal(
                                    fsv,
                                    expected,
                                    s.max_field_size,
                                    s.max_record_size,
                                    s.malformed,
                                ));
                                assert(!spec_index_ok(data@, offsets@, idx as int, *s, expected));
                            }
                            return Err(err);
                        },
                        Ok(None) => {},
                        Ok(Some(pf)) => {
                            let (text_row, _) = decode_fields(s.encoding_label.as_str(), &pf);
                            slot = text_row;
                        },
                    }
                },
            }
        }
        let ghost sv = row_text_view(slot);
        rows.push(slot);
        k = k + 1;
        proof {
            assert(sv == spec_row_at_index(
                data@,
                offsets@,
                indices@[k - 1] as int,
                *s,
                expected,
            ));
            assert forall|j: int| 0 <= j < k implies rows_text_view(rows)[j] == spec_row_at_index(
                data@,
                offsets@,
                #[trigger] indices@[j] as int,
                *s,
                expected,
            ) by {
                if j < k - 1 {
                    assert(rows_text_view(rows)[j] == pre_rows[j]);
                } else {
                    assert(rows_text_view(rows)[j] == sv);
                }
            }
        }
    }
    Ok(rows)
}

/// The full sequential parse, decoded: what the whole file reads as.
pub open spec fn spec_full_text(
    data: Seq<u8>,
    s: ParseSettings,
    expected: Option<usize>,
) -> Seq<Seq<Seq<char>>> {
    let start0 = spec_body_start(data, s.delimiter, s.quote, s.escape, s.line_ending, s.has_headers);
    let full = crate::offsets::spec_rows_from(
        data,
        start0,
        s.delimiter,
        s.quote,
        s.escape,
        s.line_ending,
        expected,
        s.max_field_size,
        s.max_record_size,
        s.malformed,
    );
    Seq::new(full.len(), |k: int| spec_decode_row(s.encoding_label@, full[k]))
}

/// The offset array of the full pass, as stored 64-bit positions.
pub open spec fn spec_offsets_u64(
    data: Seq<u8>,
    s: ParseSettings,
    expected: Option<usize>,
) -> Seq<u64> {
    let start0 = spec_body_start(data, s.delimiter, s.quote, s.escape, s.line_ending, s.has_headers);
    let offs = crate::offsets::spec_offsets_from(
        data,
        start0,
        s.delimiter,
        s.quote,
        s.escape,
        s.line_ending,
        expected,
        s.max_field_size,
        s.max_record_size,
        s.malformed,
    );
    Seq::new(offs.len(), |k: int| offs[k] as u64)
}

/// Reading any range `[a, b)` of the built offset array yields exactly the
/// corresponding slice of the full sequential parse of the same data under
/// the same dialect and malformed mode.
pub proof fn lemma_read_matches_full_parse(
    data: Seq<u8>,
    s: ParseSettings,
    expected: Option<usize>,
    a: int,
    b: int,
)
    requires
        data.len() <= u64::MAX,
        0 <= a <= b <= spec_offsets_u64(data, s, expected).len(),
    ensures
        spec_rows_at(data, spec_offsets_u64(data, s, expected), a, b, s, expected)
            == spec_full_text(data, s, expected).subrange(a, b),
    decreases b - a,
{
    let start0 = spec_body_start(data, s.delimiter, s.quote, s.escape, s.line_ending, s.has_headers);
    let offs = crate::offsets::spec_offsets_from(
        data,
        start0,
        s.delimiter,
        s.quote,
        s.escape,
        s.line_ending,
        expected,
        s.max_field_size,
        s.max_record_size,
        s.malformed,
    );
    let u = spec_offsets_u64(data, s, expected);
    let full_text = spec_full_text(data, s, expected);
    crate::record::lemma_next_record_bounds(data, 0, s.delimiter, s.quote, s.escape, s.line_ending);
    crate::offsets::lemma_offsets_valid(
        data,
        start0,
        s.delimiter,
        s.quote,
        s.escape,
        s.line_ending,
        expected,
        s.max_field_size,
        s.max_record_size,
        s.malformed,
    );
    assert(full_text.len() == u.len());
    if a >= b {
        assert(spec_rows_at(data, u, a, b, s, expected) =~= full_text.subrange(a, b));
    } else {
        lemma_read_matches_full_parse(data, s, expected, a + 1, b);
        assert(u[a] as int == offs[a]);
        let r = spec_next_record(data, offs[a], s.delimiter, s.quote, s.escape, s.line_ending);
        assert(r is Some);
        let rr = r->0;
        let fs = rr.0;
        assert(spec_keeps(fs, expected, s.max_field_size, s.max_record_size, s.malformed));
        assert(spec_rows_at(data, u, a, b, s, expected) == seq![
            spec_decode_row(
                s.encoding_label@,
                spec_processed(fs, expected, s.max_field_size, s.max_record_size, s.malformed),
            ),
        ] + spec_rows_at(data, u, a + 1, b, s, expected));
        assert(spec_decode_row(
            s.encoding_label@,
            spec_processed(fs, expected, s.max_field_size, s.max_record_size, s.malformed),
        ) == full_text[a]);
        assert(seq![full_text[a]] + full_text.subrange(a + 1, b) =~= full_text.subrange(a, b));
    }
}

} // verus!
