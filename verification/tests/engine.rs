//! End-to-end checks of the engine over small in-memory files.

use quickrows::cache::CsvCache;
use quickrows::detect::detect_parse_settings;
use quickrows::dialect::{
    apply_parse_overrides, default_parse_settings, LineEnding, MalformedMode, ParseOverrides,
    ParseSettings,
};
use quickrows::diskcache::{
    offsets_cache_path, order_cache_path, read_offsets_cache, read_order_cache,
    write_offsets_cache, write_order_cache, CacheKey,
};
use quickrows::dups::find_duplicates;
use quickrows::offsets::build_row_offsets;
use quickrows::policy::{CsvError, ParseWarning, WarningKind};
use quickrows::reader::{get_headers, read_chunk, read_chunk_with_offsets, read_rows_by_index};
use quickrows::search::{chunk_matches, search_parallel, search_with_offsets};
use quickrows::sort::sort_rows;

fn settings(has_headers: bool, malformed: MalformedMode) -> ParseSettings {
    let mut s = default_parse_settings();
    s.has_headers = has_headers;
    s.malformed = malformed;
    s
}

fn rows(data: &[u8], s: &ParseSettings, expected: Option<usize>) -> Vec<Vec<String>> {
    let mut warnings: Vec<ParseWarning> = Vec::new();
    let offsets = build_row_offsets(data, s, expected, &mut warnings).expect("offsets");
    read_chunk_with_offsets(data, &offsets, 0, usize::MAX / 2, s, expected, &mut warnings)
        .expect("rows")
}

#[test]
fn put_get_clear_and_eviction() {
    let mut cache = CsvCache::new(1);
    cache.put(0, 1, vec![vec!["a".to_string()]]);
    assert_eq!(cache.get(0, 1), Some(vec![vec!["a".to_string()]]));

    cache.put(1, 1, vec![vec!["b".to_string()]]);
    assert!(cache.get(0, 1).is_none());
    assert_eq!(cache.get(1, 1), Some(vec![vec!["b".to_string()]]));

    cache.clear();
    assert!(cache.get(1, 1).is_none());
}

#[test]
fn search_parallel_finds_matching_rows() {
    let data = vec![
        vec!["alpha".to_string(), "bravo".to_string()],
        vec!["charlie".to_string(), "AlphaBeta".to_string()],
        vec!["delta".to_string(), "echo".to_string()],
    ];

    let mut matches = search_parallel(&data, 1, "alpha");
    matches.sort_unstable();
    assert_eq!(matches, vec![1]);
}

#[test]
fn detection_on_plain_comma_file() {
    let data = b"a,b,c\n1,2,3\n4,5,6\n";
    let d = detect_parse_settings(data);
    assert_eq!(d.delimiter, b',');
    assert_eq!(d.quote, b'"');
    assert_eq!(d.line_ending, LineEnding::Lf);
    assert!(d.has_headers);

    let s = apply_parse_overrides(&d, &None);
    assert_eq!(s.malformed, MalformedMode::Skip);
    let mut warnings = Vec::new();
    let headers = get_headers(data, &s, &mut warnings);
    assert_eq!(headers, vec!["a".to_string(), "b".to_string(), "c".to_string()]);

    let offsets = build_row_offsets(data, &s, Some(3), &mut warnings).expect("offsets");
    assert_eq!(offsets.len(), 2);
}

#[test]
fn skip_mode_drops_short_row() {
    let data = b"a,b\n1\n2,3\n";
    let s = settings(true, MalformedMode::Skip);
    let mut warnings = Vec::new();
    let offsets = build_row_offsets(data, &s, Some(2), &mut warnings).expect("offsets");
    assert_eq!(offsets.len(), 1);
    let chunk =
        read_chunk_with_offsets(data, &offsets, 0, 10, &s, Some(2), &mut warnings).expect("chunk");
    assert_eq!(chunk, vec![vec!["2".to_string(), "3".to_string()]]);
    assert!(warnings
        .iter()
        .any(|w| w.kind == WarningKind::UnequalLengths && w.record == Some(0)));
}

#[test]
fn repair_mode_pads_short_row() {
    let data = b"a,b\n1\n2,3\n";
    let s = settings(true, MalformedMode::Repair);
    let mut warnings = Vec::new();
    let offsets = build_row_offsets(data, &s, Some(2), &mut warnings).expect("offsets");
    assert_eq!(offsets.len(), 2);
    let chunk =
        read_chunk_with_offsets(data, &offsets, 0, 10, &s, Some(2), &mut warnings).expect("chunk");
    assert_eq!(
        chunk,
        vec![
            vec!["1".to_string(), "".to_string()],
            vec!["2".to_string(), "3".to_string()],
        ]
    );
    assert!(warnings.iter().any(|w| w.kind == WarningKind::Repaired));
}

#[test]
fn strict_mode_fails_on_short_row() {
    let data = b"a,b\n1\n2,3\n";
    let s = settings(true, MalformedMode::Strict);
    let mut warnings = Vec::new();
    let r = build_row_offsets(data, &s, Some(2), &mut warnings);
    assert_eq!(r, Err(CsvError::Parse));
}

#[test]
fn strict_mode_fails_on_oversized_field() {
    let data = b"abcdefgh,x\n";
    let mut s = settings(false, MalformedMode::Strict);
    s.max_field_size = 4;
    let mut warnings = Vec::new();
    let r = build_row_offsets(data, &s, None, &mut warnings);
    assert_eq!(r, Err(CsvError::Limit));
}

#[test]
fn substring_search_is_case_insensitive() {
    let data = b"alpha,bravo\ncharlie,AlphaBeta\ndelta,echo\n";
    let s = settings(false, MalformedMode::Skip);
    let mut warnings = Vec::new();
    let offsets = build_row_offsets(data, &s, None, &mut warnings).expect("offsets");
    assert_eq!(offsets.len(), 3);
    let matches = search_with_offsets(data, &offsets, Some(1), "alpha", false, false, &s);
    assert_eq!(matches, vec![1]);
}

#[test]
fn whole_word_and_case_sensitive_search() {
    let data = b"alpha,bravo\ncharlie,AlphaBeta\ndelta,alpha\n";
    let s = settings(false, MalformedMode::Skip);
    let mut warnings = Vec::new();
    let offsets = build_row_offsets(data, &s, None, &mut warnings).expect("offsets");
    let ww = search_with_offsets(data, &offsets, Some(1), "alpha", false, true, &s);
    assert_eq!(ww, vec![2]);
    let cs = search_with_offsets(data, &offsets, None, "Alpha", true, false, &s);
    assert_eq!(cs, vec![1]);
}

#[test]
fn sort_ascending_and_descending() {
    let data = b"b\na\nc\n";
    let s = settings(false, MalformedMode::Skip);
    let loaded = rows(data, &s, None);
    let asc = sort_rows(&loaded, 0, true);
    assert_eq!(asc, vec![1, 0, 2]);
    let desc = sort_rows(&loaded, 0, false);
    assert_eq!(desc, vec![2, 0, 1]);
}

#[test]
fn duplicates_by_full_record() {
    let data = b"x,1\ny,2\nx,1\nz,3\nx,1\n";
    let s = settings(false, MalformedMode::Skip);
    let mut warnings = Vec::new();
    let offsets = build_row_offsets(data, &s, None, &mut warnings).expect("offsets");
    let dups = find_duplicates(data, &offsets, &s, None);
    assert_eq!(dups, vec![0, 2, 4]);
}

#[test]
fn duplicates_by_column_and_field_boundaries() {
    let data = b"ab,\nx,9\na,b\nab,\n";
    let s = settings(false, MalformedMode::Skip);
    let mut warnings = Vec::new();
    let offsets = build_row_offsets(data, &s, None, &mut warnings).expect("offsets");
    let whole = find_duplicates(data, &offsets, &s, None);
    assert_eq!(whole, vec![0, 3]);
    let by_col = find_duplicates(data, &offsets, &s, Some(0));
    assert_eq!(by_col, vec![0, 3]);
}

#[test]
fn offsets_cache_round_trip() {
    let key = CacheKey { hash: 7, len: 18, modified: 1000 };
    let offsets: Vec<u64> = vec![0, 12, 16];
    let bytes = write_offsets_cache(key, &offsets);
    let loaded = read_offsets_cache(&bytes, key).expect("offsets");
    assert_eq!(loaded, offsets);

    let other = CacheKey { hash: 7, len: 19, modified: 1000 };
    assert!(read_offsets_cache(&bytes, other).is_none());
    let stale = CacheKey { hash: 7, len: 18, modified: 1001 };
    assert!(read_offsets_cache(&bytes, stale).is_none());
}

#[test]
fn order_cache_round_trip_and_mismatch() {
    let key = CacheKey { hash: 9, len: 18, modified: 1000 };
    let order: Vec<usize> = vec![2, 0, 1];
    let bytes = write_order_cache(key, 2, true, &order);
    let loaded = read_order_cache(&bytes, key, 2, true).expect("order");
    assert_eq!(loaded, order);

    assert!(read_order_cache(&bytes, key, 1, true).is_none());
    assert!(read_order_cache(&bytes, key, 2, false).is_none());
}

#[test]
fn cache_file_names() {
    let key = CacheKey { hash: 0x1234, len: 1, modified: 2 };
    assert_eq!(offsets_cache_path(key), "offsets_0000000000001234.bin");
    assert_eq!(order_cache_path(key, 2, true), "order_0000000000001234_c2_asc.bin");
    assert_eq!(order_cache_path(key, 10, false), "order_0000000000001234_c10_desc.bin");
}

#[test]
fn streaming_chunks_cover_all_matches() {
    let matches: Vec<usize> = (0..10001).collect();
    let chunks = chunk_matches(&matches, 5000);
    assert_eq!(chunks.len(), 3);
    assert_eq!(chunks[0].len(), 5000);
    assert_eq!(chunks[1].len(), 5000);
    assert_eq!(chunks[2].len(), 1);
    let total: usize = chunks.iter().map(|c| c.len()).sum();
    assert_eq!(total, matches.len());
    let flat: Vec<usize> = chunks.into_iter().flatten().collect();
    assert_eq!(flat, matches);
}

#[test]
fn quoted_fields_and_doubled_quotes() {
    let data = b"a,\"b,c\",d\n\"he said \"\"hi\"\"\",x\n";
    let s = settings(false, MalformedMode::Skip);
    let loaded = rows(data, &s, None);
    assert_eq!(
        loaded[0],
        vec!["a".to_string(), "b,c".to_string(), "d".to_string()]
    );
    assert_eq!(loaded[1], vec!["he said \"hi\"".to_string(), "x".to_string()]);
}

#[test]
fn read_chunk_matches_sequential_slice() {
    let data = b"h1,h2\nr0,a\nr1,b\nr2,c\nr3,d\n";
    let s = settings(true, MalformedMode::Skip);
    let mut warnings = Vec::new();
    let all = read_chunk(data, 0, 100, &s, Some(2), &mut warnings).expect("all");
    assert_eq!(all.len(), 4);
    let mid = read_chunk(data, 1, 2, &s, Some(2), &mut warnings).expect("mid");
    assert_eq!(mid, all[1..3].to_vec());
}

#[test]
fn read_rows_by_index_keeps_caller_order() {
    let data = b"r0\nr1\nr2\n";
    let s = settings(false, MalformedMode::Skip);
    let mut warnings = Vec::new();
    let offsets = build_row_offsets(data, &s, None, &mut warnings).expect("offsets");
    let picked = read_rows_by_index(data, &offsets, &vec![2, 0, 9], &s, None, &mut warnings)
        .expect("rows");
    assert_eq!(picked.len(), 3);
    assert_eq!(picked[0], vec!["r2".to_string()]);
    assert_eq!(picked[1], vec!["r0".to_string()]);
    assert!(picked[2].is_empty());
}

#[test]
fn synthesized_headers_without_header_row() {
    let data = b"1,2,3\n";
    let s = settings(false, MalformedMode::Skip);
    let mut warnings = Vec::new();
    let headers = get_headers(data, &s, &mut warnings);
    assert_eq!(
        headers,
        vec!["Column 1".to_string(), "Column 2".to_string(), "Column 3".to_string()]
    );
}

#[test]
fn overrides_replace_detected_fields() {
    let d = quickrows::dialect::DetectedSettings {
        delimiter: b',',
        quote: b'"',
        escape: None,
        line_ending: LineEnding::Lf,
        encoding_label: "UTF-8".to_string(),
        has_headers: true,
    };
    let o = ParseOverrides {
        delimiter: Some("semicolon".to_string()),
        quote: Some("single".to_string()),
        escape: Some("backslash".to_string()),
        line_ending: Some("crlf".to_string()),
        encoding: Some("latin1".to_string()),
        has_headers: Some(false),
        malformed: Some("repair".to_string()),
        max_field_size: Some(1024),
        max_record_size: Some(4096),
    };
    let s = apply_parse_overrides(&d, &Some(o));
    assert_eq!(s.delimiter, b';');
    assert_eq!(s.quote, b'\'');
    assert_eq!(s.escape, Some(b'\\'));
    assert_eq!(s.line_ending, LineEnding::Crlf);
    assert_eq!(s.encoding_label, "windows-1252");
    assert!(!s.has_headers);
    assert_eq!(s.malformed, MalformedMode::Repair);
    assert_eq!(s.max_field_size, 1024);
    assert_eq!(s.max_record_size, 4096);
}

#[test]
fn header_detection_on_numeric_second_row() {
    let with_headers = b"name,age\nann,31\nbob,44\n";
    assert!(detect_parse_settings(with_headers).has_headers);
    let without = b"1,2\n3,4\n5,6\n";
    assert!(!detect_parse_settings(without).has_headers);
}

#[test]
fn tab_delimiter_is_detected() {
    let data = b"a\tb\tc\n1\t2\t3\n4\t5\t6\n";
    let d = detect_parse_settings(data);
    assert_eq!(d.delimiter, b'\t');
}

#[test]
fn error_messages_are_short_strings() {
    assert_eq!(CsvError::NotIndexed.message(), "File not fully indexed yet");
    assert_eq!(CsvError::NoFile.message(), "No file loaded");
    assert_eq!(CsvError::NoSort.message(), "No sorted data");
}

#[test]
fn column_index_whole_word_lookup_matches_scan() {
    let data = b"alpha,bravo\ncharlie,ALPHA\ndelta,alpha\n";
    let s = settings(false, MalformedMode::Skip);
    let loaded = rows(data, &s, None);
    let ix = quickrows::colindex::build_column_index(&loaded, 1).expect("index");
    let hits = quickrows::colindex::index_lookup(&ix, "Alpha");
    assert_eq!(hits, vec![1, 2]);

    let mut warnings = Vec::new();
    let offsets = build_row_offsets(data, &s, None, &mut warnings).expect("offsets");
    let scanned = search_with_offsets(data, &offsets, Some(1), "Alpha", false, true, &s);
    let as_usize: Vec<usize> = hits.iter().map(|&h| h as usize).collect();
    assert_eq!(as_usize, scanned);
}

#[test]
fn utf8_bom_wins_encoding_detection() {
    let data = b"\xef\xbb\xbfa,b\n1,2\n";
    let d = detect_parse_settings(data);
    assert_eq!(d.encoding_label, "UTF-8");
    assert_eq!(d.delimiter, b',');
}

#[test]
fn malformed_mode_names_round_trip() {
    assert_eq!(MalformedMode::from_str("skip"), MalformedMode::Skip);
    assert_eq!(MalformedMode::from_str("repair"), MalformedMode::Repair);
    assert_eq!(MalformedMode::from_str("anything"), MalformedMode::Strict);
    assert_eq!(MalformedMode::Skip.as_str(), "skip");
    assert_eq!(MalformedMode::Repair.as_str(), "repair");
    assert_eq!(MalformedMode::Strict.as_str(), "strict");
}

#[test]
fn session_round_trip_with_cache_and_sort() {
    let data = b"h1,h2\nb,2\na,1\nc,3\n";
    let s = settings(true, MalformedMode::Skip);
    let mut warnings = Vec::new();
    let headers = get_headers(data, &s, &mut warnings);
    assert_eq!(headers, vec!["h1".to_string(), "h2".to_string()]);

    let mut session = quickrows::session::Session::for_data(s.clone(), headers, data);
    assert_eq!(session.row_count(), 0);
    assert_eq!(
        session.find_duplicates(data, None),
        Err(CsvError::NotIndexed)
    );

    let offsets = build_row_offsets(data, &s, Some(2), &mut warnings).expect("offsets");
    session.install_offsets(offsets);
    assert_eq!(session.row_count(), 3);

    let chunk = session.read_chunk_cached(data, 0, 2).expect("chunk");
    assert_eq!(
        chunk,
        vec![
            vec!["b".to_string(), "2".to_string()],
            vec!["a".to_string(), "1".to_string()],
        ]
    );
    let cached_again = session.read_chunk_cached(data, 0, 2).expect("chunk");
    assert_eq!(cached_again, chunk);

    assert_eq!(session.get_sorted_indices(0, 10), Err(CsvError::NoSort));
    let all = session.read_chunk_cached(data, 0, 100).expect("rows");
    let perm = sort_rows(&all, 0, true);
    assert_eq!(perm, vec![1, 0, 2]);
    session.install_sort(perm.iter().map(|&p| p as usize).collect());
    assert_eq!(session.get_sorted_indices(0, 2), Ok(vec![1, 0]));

    let sorted = session.get_sorted_chunk(data, 0, 10).expect("sorted");
    assert_eq!(sorted.len(), 3);
    assert_eq!(sorted[0].0, 1);
    assert_eq!(sorted[0].1, vec!["a".to_string(), "1".to_string()]);
    assert_eq!(sorted[2].1, vec!["c".to_string(), "3".to_string()]);

    session.clear_sort();
    assert_eq!(session.get_sorted_indices(0, 2), Err(CsvError::NoSort));

    let (chunks, total) = session
        .search_stream_chunks(data, None, "a", false, false)
        .expect("stream");
    assert_eq!(total, 1);
    assert_eq!(chunks, vec![vec![1]]);

    let warned = session.get_parse_warnings(true);
    assert!(warned.is_empty());
}

#[test]
fn estimated_row_count_extrapolates() {
    let sample = b"r0\nr1\nr2\n";
    assert_eq!(quickrows::detect::estimate_row_count(90, sample), Some(30));
    assert_eq!(quickrows::detect::estimate_row_count(90, b"no newline"), None);
    assert_eq!(quickrows::detect::estimate_row_count(90, b""), None);
}

#[test]
fn search_without_an_index_builds_one() {
    let data = b"alpha,bravo\ncharlie,AlphaBeta\ndelta,echo\n";
    let s = settings(false, MalformedMode::Skip);
    let matches =
        quickrows::search::search_without_index(data, Some(1), "alpha", false, false, &s, None)
            .expect("search");
    assert_eq!(matches, vec![1]);
}

#[test]
fn session_index_toggle_clears_index() {
    let data = b"alpha,bravo\ncharlie,ALPHA\n";
    let s = settings(false, MalformedMode::Skip);
    let loaded = rows(data, &s, None);
    let mut session = quickrows::session::Session::for_data(s.clone(), Vec::new(), data);
    let ix = quickrows::colindex::build_search_index(&loaded, 2);
    assert!(ix.ready);
    assert_eq!(ix.columns.len(), 2);
    assert!(ix.skipped_columns.is_empty());
    session.install_index_for(ix, &loaded);
    assert!(session.search_index.is_some());
    session.set_enable_indexing(false);
    assert!(session.search_index.is_none());
}

#[test]
fn index_search_applies_only_when_eligible() {
    let data = b"alpha,bravo\ncharlie,ALPHA\n";
    let s = settings(false, MalformedMode::Skip);
    let loaded = rows(data, &s, None);
    let ix = quickrows::colindex::build_search_index(&loaded, 2);
    let hit =
        quickrows::colindex::index_search_whole_word(&ix, Some(1), "alpha", false, true);
    assert_eq!(hit, Some(vec![1]));
    let not_applicable =
        quickrows::colindex::index_search_whole_word(&ix, Some(1), "alpha", true, true);
    assert!(not_applicable.is_none());
}

#[test]
fn sorted_chunk_before_offsets_reports_row_index_not_ready() {
    let data = b"a\nb\n";
    let s = settings(false, MalformedMode::Skip);
    let mut session = quickrows::session::Session::for_data(s, Vec::new(), data);
    // A (vacuously empty) permutation can exist before the offset array does.
    session.install_sort(Vec::new());
    let r = session.get_sorted_chunk(data, 0, 10);
    assert_eq!(r, Err(CsvError::RowIndexNotReady));
    assert_eq!(
        CsvError::RowIndexNotReady.message(),
        "Row index not ready"
    );
}

#[test]
fn index_build_reports_progress() {
    let data = b"r0\nr1\nr2\n";
    let s = settings(false, MalformedMode::Skip);
    let mut warnings = Vec::new();
    let seen = std::cell::RefCell::new(Vec::new());
    let offsets = quickrows::offsets::build_row_offsets_with_progress(
        data,
        &s,
        None,
        &mut warnings,
        |kept: u64| seen.borrow_mut().push(kept),
    )
    .expect("offsets");
    assert_eq!(offsets.len(), 3);
    assert_eq!(seen.into_inner(), vec![0]);
}
