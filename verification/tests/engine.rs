use rsort::chunk_processor::{
    find_chunk_boundaries, hash_string, process_chunk_stream, utf8_range_valid, Chunk, DedupError,
};
use rsort::dedup_set::DedupSet;
use rsort::deduplicator::Deduplicator;
use rsort::progress::{Metrics, ProgressTracker};

fn run(input: &[u8], chunk_size: usize) -> (Vec<u8>, Metrics) {
    let dedup = Deduplicator::new(chunk_size);
    dedup.process(&input.to_vec()).unwrap()
}

#[test]
fn empty_input_yields_one_empty_chunk() {
    let data: Vec<u8> = Vec::new();
    let chunks = find_chunk_boundaries(&data, 50);
    assert_eq!(chunks.len(), 1);
    assert_eq!(chunks[0], Chunk { start_offset: 0, end_offset: 0 });
}

#[test]
fn empty_input_yields_empty_output_and_zero_metrics() {
    let (out, metrics) = run(b"", 1024);
    assert!(out.is_empty());
    assert_eq!(metrics.lines_processed, 0);
    assert_eq!(metrics.duplicates_removed, 0);
}

#[test]
fn concrete_scenario_small_chunks() {
    for chunk_size in [1usize, 2, 5, 24, 1024] {
        let (out, metrics) = run(b"Apple\napple\nBanana\nAPPLE\n", chunk_size);
        assert_eq!(out, b"Apple\nBanana\n".to_vec());
        assert_eq!(metrics.lines_processed, 4);
        assert_eq!(metrics.duplicates_removed, 2);
    }
}

#[test]
fn chunk_size_invariance() {
    let input: &[u8] = b"alpha\nBeta\nALPHA\ngamma\nbeta\nGamma\ndelta\nalpha\n";
    let (out_small, m_small) = run(input, 1);
    let (out_mid, m_mid) = run(input, 7);
    let (out_large, m_large) = run(input, 1_000_000);
    assert_eq!(out_small, out_mid);
    assert_eq!(out_mid, out_large);
    assert_eq!(out_large, b"alpha\nBeta\ngamma\ndelta\n".to_vec());
    assert_eq!(m_small, m_mid);
    assert_eq!(m_mid, m_large);
    assert_eq!(m_large.lines_processed, 8);
    assert_eq!(m_large.duplicates_removed, 4);
}

#[test]
fn idempotence_of_rerun() {
    let input: &[u8] = b"one\nTwo\nONE\nthree\ntwo\n";
    let (out, _) = run(input, 4);
    for chunk_size in [1usize, 1024] {
        let (again, metrics) = run(&out, chunk_size);
        assert_eq!(again, out);
        assert_eq!(metrics.duplicates_removed, 0);
    }
}

#[test]
fn order_preservation_first_occurrence_wins() {
    let (out, _) = run(b"c\na\nb\nA\nc\nB\nd\n", 2);
    assert_eq!(out, b"c\na\nb\nd\n".to_vec());
}

#[test]
fn boundary_alignment_and_coverage() {
    let input: &[u8] = b"aaaa\nbb\ncccccc\ndd\ne\nffff\n";
    let chunks = find_chunk_boundaries(&input.to_vec(), 5);
    assert!(chunks.len() > 1);
    assert_eq!(chunks[0].start_offset, 0);
    for w in chunks.windows(2) {
        assert_eq!(w[1].start_offset, w[0].end_offset);
        // every internal boundary sits right after a line feed
        assert_eq!(input[w[0].end_offset as usize - 1], b'\n');
    }
    assert_eq!(chunks.last().unwrap().end_offset as usize, input.len());
}

#[test]
fn boundaries_close_at_target() {
    // with a 3-byte target every 3-byte line closes its own chunk
    let chunks = find_chunk_boundaries(&b"aa\nbb\ncc\n".to_vec(), 3);
    assert_eq!(chunks.len(), 3);
    assert_eq!(chunks[0], Chunk { start_offset: 0, end_offset: 3 });
    assert_eq!(chunks[1], Chunk { start_offset: 3, end_offset: 6 });
    assert_eq!(chunks[2], Chunk { start_offset: 6, end_offset: 9 });
}

#[test]
fn final_line_without_terminator_is_kept() {
    let (out, metrics) = run(b"x\ny\nx", 1024);
    assert_eq!(out, b"x\ny\n".to_vec());
    assert_eq!(metrics.lines_processed, 3);
    assert_eq!(metrics.duplicates_removed, 1);
}

#[test]
fn empty_lines_are_skipped() {
    let (out, metrics) = run(b"\n\nA\n\na\n", 1024);
    assert_eq!(out, b"A\n".to_vec());
    assert_eq!(metrics.lines_processed, 2);
    assert_eq!(metrics.duplicates_removed, 1);
}

#[test]
fn recovery_scenario_keeps_trailing_valid_line() {
    let mut input: Vec<u8> = vec![0xFF, 0xFE, 0xFD, b'\n'];
    input.extend_from_slice(b"Valid\n");
    let (out, metrics) = run(&input, 1024);
    assert_eq!(out, input);
    assert_eq!(metrics.lines_processed, 2);
    assert_eq!(metrics.duplicates_removed, 0);
}

#[test]
fn recovery_within_cap_consumes_whole_line() {
    // 10000 invalid bytes plus the terminator: exactly at the recovery cap
    let mut input: Vec<u8> = vec![0xFF; 10000];
    input.push(b'\n');
    input.extend_from_slice(b"ok\n");
    let (out, metrics) = run(&input, 1024);
    assert_eq!(out, input);
    assert_eq!(metrics.lines_processed, 2);
}

#[test]
fn recovery_cap_exceeded_truncates_scan() {
    // 10001 invalid bytes before the terminator: one past the recovery cap,
    // so the scan stops inside the line and nothing past the stop is read
    let mut input: Vec<u8> = vec![0xFF; 10001];
    input.push(b'\n');
    input.extend_from_slice(b"ok\n");
    let chunks = find_chunk_boundaries(&input, 1024);
    assert_eq!(chunks.last().unwrap().end_offset, 10001);
    let (out, metrics) = run(&input, 1024);
    // the line holding the stop point crosses the final chunk end, so the
    // processor never reads it
    assert!(out.is_empty());
    assert_eq!(metrics.lines_processed, 0);
    assert_eq!(metrics.duplicates_removed, 0);
}

#[test]
fn recovery_cap_counts_from_failure_point() {
    // a long valid prefix, one invalid byte, then the terminator: the cap
    // is measured from where decoding fails, so the line recovers whole
    let mut input: Vec<u8> = vec![b'a'; 10001];
    input.push(0xFF);
    input.push(b'\n');
    input.extend_from_slice(b"z\n");
    let chunks = find_chunk_boundaries(&input, 1_000_000);
    assert_eq!(chunks.last().unwrap().end_offset as usize, input.len());
    let (out, metrics) = run(&input, 1024);
    assert_eq!(out, input);
    assert_eq!(metrics.lines_processed, 2);
    assert_eq!(metrics.duplicates_removed, 0);
}

#[test]
fn processor_skips_line_crossing_chunk_end() {
    let data = b"ab\ncd\n".to_vec();
    let chunk = Chunk { start_offset: 0, end_offset: 4 };
    let mut out: Vec<u8> = Vec::new();
    let mut seen = DedupSet::new();
    let mut progress = ProgressTracker::new();
    process_chunk_stream(&data, &chunk, &mut out, &mut seen, &mut progress).unwrap();
    // the second line would run past the chunk end, so it is never read
    assert_eq!(out, b"ab\n".to_vec());
    assert_eq!(progress.finish().lines_processed, 1);
}

#[test]
fn invalid_chunk_start_is_rejected() {
    let data = b"abc\n".to_vec();
    let chunk = Chunk { start_offset: 10, end_offset: 12 };
    let mut out: Vec<u8> = Vec::new();
    let mut seen = DedupSet::new();
    let mut progress = ProgressTracker::new();
    let r = process_chunk_stream(&data, &chunk, &mut out, &mut seen, &mut progress);
    assert_eq!(r, Err(DedupError::InvalidChunk { start_offset: 10, file_size: 4 }));
    assert!(out.is_empty());
}

#[test]
fn chunk_end_beyond_data_is_clamped() {
    let data = b"a\nb\na\n".to_vec();
    let chunk = Chunk { start_offset: 0, end_offset: 1000 };
    let mut out: Vec<u8> = Vec::new();
    let mut seen = DedupSet::new();
    let mut progress = ProgressTracker::new();
    let r = process_chunk_stream(&data, &chunk, &mut out, &mut seen, &mut progress);
    assert!(r.is_ok());
    assert_eq!(out, b"a\nb\n".to_vec());
    let metrics = progress.finish();
    assert_eq!(metrics.lines_processed, 3);
    assert_eq!(metrics.duplicates_removed, 1);
}

#[test]
fn shared_set_deduplicates_across_chunks() {
    let data = b"x\ny\nx\ny\n".to_vec();
    let mut out: Vec<u8> = Vec::new();
    let mut seen = DedupSet::new();
    let mut progress = ProgressTracker::new();
    let first = Chunk { start_offset: 0, end_offset: 4 };
    let second = Chunk { start_offset: 4, end_offset: 8 };
    process_chunk_stream(&data, &first, &mut out, &mut seen, &mut progress).unwrap();
    process_chunk_stream(&data, &second, &mut out, &mut seen, &mut progress).unwrap();
    assert_eq!(out, b"x\ny\n".to_vec());
    let metrics = progress.finish();
    assert_eq!(metrics.lines_processed, 4);
    assert_eq!(metrics.duplicates_removed, 2);
}

#[test]
fn fingerprint_is_case_insensitive() {
    assert_eq!(hash_string(b"Apple"), hash_string(b"APPLE"));
    assert_eq!(hash_string(b"apple"), hash_string(b"aPpLe"));
    assert_ne!(hash_string(b"apple"), hash_string(b"apples"));
    assert_ne!(hash_string(b"apple"), hash_string(b"banana"));
}

#[test]
fn fingerprint_matches_fnv1a_reference_values() {
    // published 64-bit FNV-1a values
    assert_eq!(hash_string(b""), 0xcbf29ce484222325);
    assert_eq!(hash_string(b"a"), 0xaf63dc4c8601ec8c);
    assert_eq!(hash_string(b"A"), 0xaf63dc4c8601ec8c);
    assert_eq!(hash_string(b"foobar"), 0x85944171f73967e8);
}

#[test]
fn unicode_case_folding() {
    // lines that decode as UTF-8 fold by Unicode lowercasing
    let (out, metrics) = run("\u{c9}\n\u{e9}\n".as_bytes(), 1024);
    assert_eq!(out, "\u{c9}\n".as_bytes().to_vec());
    assert_eq!(metrics.lines_processed, 2);
    assert_eq!(metrics.duplicates_removed, 1);
    assert_eq!(
        hash_string("\u{c9}".as_bytes()),
        hash_string("\u{e9}".as_bytes())
    );
}

#[test]
fn multibyte_lines_fold_across_boundaries() {
    let input = "caf\u{e9}\nna\u{ef}ve\nCAF\u{c9}\n".as_bytes();
    let (out, metrics) = run(input, 1);
    assert_eq!(out, "caf\u{e9}\nna\u{ef}ve\n".as_bytes().to_vec());
    assert_eq!(metrics.lines_processed, 3);
    assert_eq!(metrics.duplicates_removed, 1);
}

#[test]
fn undecodable_lines_fold_ascii_only() {
    // a line that does not decode falls back to ASCII folding
    let input = b"A\xFF\nB\na\xFF\n";
    let (out, metrics) = run(input, 1024);
    assert_eq!(out, b"A\xFF\nB\n".to_vec());
    assert_eq!(metrics.lines_processed, 3);
    assert_eq!(metrics.duplicates_removed, 1);
}

#[test]
fn progress_tracker_accumulates() {
    let mut t = ProgressTracker::new();
    t.increment_lines(3);
    t.increment_lines(2);
    t.increment_duplicates(1);
    let m = t.finish();
    assert_eq!(m, Metrics { lines_processed: 5, duplicates_removed: 1 });
}

#[test]
fn deduplicator_new_keeps_chunk_size() {
    let d = Deduplicator::new(12345);
    assert_eq!(d.chunk_size_bytes, 12345);
}

#[test]
fn utf8_validation_accepts_well_formed_sequences() {
    let data = "ascii \u{e9} \u{4e2d} \u{1f600}\n".as_bytes().to_vec();
    let n = data.len();
    assert!(utf8_range_valid(&data, 0, n));
}

#[test]
fn utf8_validation_rejects_malformed_sequences() {
    // lone invalid byte
    assert!(!utf8_range_valid(&vec![0xFF], 0, 1));
    // overlong encoding
    assert!(!utf8_range_valid(&vec![0xC0, 0x80], 0, 2));
    // surrogate half
    assert!(!utf8_range_valid(&vec![0xED, 0xA0, 0x80], 0, 3));
    // truncated multi-byte sequence
    assert!(!utf8_range_valid(&vec![0xE2, 0x82], 0, 2));
    // valid prefix of a larger buffer
    assert!(utf8_range_valid(&vec![0x61, 0xFF], 0, 1));
}
