use battleship::encoder::write_chunk;
use battleship::filter::{filter_and_count, filter_records, merge_counts, process_chunk};
use battleship::reader::{create_reader, DeltaDecodingReader, StreamError};
use battleship::{
    expected_all_boards_counts, filter_and_count as filter_and_count_data, filter_and_count_reader,
    filter_and_count_reader_raw, filter_and_count_with_format, validate_expected_counts, CountMismatch,
};

const DATA_PATH: &str = "data/deltas.bin.zst.22";

/// The full data set, where a caller has placed its bytes beside the tests; file reading
/// is the command-line tool's part, so here only its presence is checked.
fn read_data_file() -> Option<Vec<u8>> {
    if !std::path::Path::new(DATA_PATH).exists() {
        println!("Skipping - data file not found: {}", DATA_PATH);
    } else {
        println!("Data file found at {}; the command-line tool processes it", DATA_PATH);
    }
    None
}

fn create_test_delta_data() -> Vec<u8> {
    let mut data = Vec::new();
    let board1: u128 = 0x123456789ABCDEF0_123456789ABCDEF0;
    data.extend_from_slice(&board1.to_le_bytes());
    let board2: u128 = 0x111111111111111_111111111111111;
    let delta2 = board1 ^ board2;
    data.extend_from_slice(&delta2.to_le_bytes());
    let board3: u128 = 0x222222222222222_222222222222222;
    let delta3 = board2 ^ board3;
    data.extend_from_slice(&delta3.to_le_bytes());
    data
}

fn create_test_records() -> Vec<std::io::Result<u128>> {
    let board1: u128 = 0x123456789ABCDEF0_123456789ABCDEF0;
    let board2: u128 = 0x111111111111111_111111111111111;
    let board3: u128 = 0x222222222222222_222222222222222;
    vec![Ok(board1), Ok(board2), Ok(board3)]
}

fn records_bytes(records: &[u128]) -> Vec<u8> {
    let mut data = Vec::new();
    for r in records {
        data.extend_from_slice(&r.to_le_bytes());
    }
    data
}

#[test]
fn lib_test_delta_decoding_basic() {
    let test_data = create_test_delta_data();
    let (counts, matched) = filter_and_count_reader(&test_data, 0, 0).unwrap();
    assert_eq!(matched, 3, "Should match all 3 test boards");
    assert_eq!(counts.len(), 81, "Should have 81 cell counts");
}

#[test]
fn test_raw_vs_delta_same_data() {
    let board1: u128 = 0x123456789ABCDEF0_123456789ABCDEF0;
    let board2: u128 = 0x111111111111111_111111111111111;
    let board3: u128 = 0x222222222222222_222222222222222;
    let raw_data = records_bytes(&[board1, board2, board3]);
    let delta_data = create_test_delta_data();

    let (raw_counts, raw_matched) = filter_and_count_reader_raw(&raw_data, 0, 0).unwrap();
    let (delta_counts, delta_matched) = filter_and_count_reader(&delta_data, 0, 0).unwrap();

    assert_eq!(raw_matched, delta_matched, "Both formats should match same number of boards");
    assert_eq!(raw_counts, delta_counts, "Both formats should produce identical counts");
}

#[test]
fn lib_test_filtering_logic() {
    let test_data = create_test_delta_data();
    let (_, matched_with_hit) = filter_and_count_reader(&test_data, 0x1, 0).unwrap();
    let (_, matched_with_miss) = filter_and_count_reader(&test_data, 0, 0x1).unwrap();
    let (_, matched_no_filter) = filter_and_count_reader(&test_data, 0, 0).unwrap();
    assert!(matched_with_hit <= matched_no_filter);
    assert!(matched_with_miss <= matched_no_filter);
}

#[test]
fn lib_test_expected_all_boards_counts_with_real_data() {
    let Some(data) = read_data_file() else { return };
    let (counts, matched) = filter_and_count_data(data, 0, 0).expect("Failed to process board data file");
    println!("Processed {} total boards", matched);
    validate_expected_counts(&counts).expect("Counts don't match expected values!");
}

#[test]
fn lib_test_validate_expected_counts_function() {
    assert!(validate_expected_counts(&expected_all_boards_counts()).is_ok());
    let mut wrong_counts = expected_all_boards_counts().to_vec();
    wrong_counts[0] += 1;
    assert!(validate_expected_counts(&wrong_counts).is_err());
    let short_counts = vec![0u32; 80];
    assert!(validate_expected_counts(&short_counts).is_err());
}

#[test]
fn tests_test_delta_decoding_basic() {
    let test_data = create_test_delta_data();
    let (counts, matched) = filter_and_count_reader(&test_data, 0, 0).unwrap();
    assert_eq!(matched, 3, "Should match all 3 test boards");
    assert_eq!(counts.len(), 81, "Should have 81 cell counts");
}

#[test]
fn tests_test_filtering_logic() {
    let test_data = create_test_delta_data();
    let (_, matched_with_hit) = filter_and_count_reader(&test_data, 0x1, 0).unwrap();
    let (_, matched_with_miss) = filter_and_count_reader(&test_data, 0, 0x1).unwrap();
    let (_, matched_no_filter) = filter_and_count_reader(&test_data, 0, 0).unwrap();
    assert!(matched_with_hit <= matched_no_filter);
    assert!(matched_with_miss <= matched_no_filter);
}

#[test]
fn tests_test_expected_all_boards_counts_with_real_data() {
    let Some(data) = read_data_file() else { return };
    let (counts, matched) = filter_and_count_data(data, 0, 0).expect("Failed to process board data file");
    println!("Processed {} total boards", matched);
    validate_expected_counts(&counts).expect("Counts don't match expected values!");
}

#[test]
fn tests_test_validate_expected_counts_function() {
    assert!(validate_expected_counts(&expected_all_boards_counts()).is_ok());
    let mut wrong_counts = expected_all_boards_counts().to_vec();
    wrong_counts[0] += 1;
    assert!(validate_expected_counts(&wrong_counts).is_err());
    let short_counts = vec![0u32; 80];
    assert!(validate_expected_counts(&short_counts).is_err());
}

#[test]
fn integration_test_delta_decoding_basic() {
    let (counts, matched) = filter_and_count(create_test_records(), 0, 0).unwrap();
    assert_eq!(matched, 3, "Should match all 3 test boards");
    assert_eq!(counts.len(), 81, "Should have 81 cell counts");
}

#[test]
fn integration_test_filtering_logic() {
    let (_, matched_with_hit) = filter_and_count(create_test_records(), 0x1, 0).unwrap();
    let (_, matched_with_miss) = filter_and_count(create_test_records(), 0, 0x1).unwrap();
    let (_, matched_no_filter) = filter_and_count(create_test_records(), 0, 0).unwrap();
    assert!(matched_with_hit <= matched_no_filter);
    assert!(matched_with_miss <= matched_no_filter);
}

#[test]
fn integration_test_expected_all_boards_counts_with_real_data() {
    let Some(data) = read_data_file() else { return };
    let reader = create_reader(data).expect("Failed to create reader for board data file");
    let (counts, matched) = filter_and_count(reader.into_records(), 0, 0).expect("Failed to process board data file");
    println!("Processed {} total boards", matched);
    validate_expected_counts(&counts).expect("Counts don't match expected values!");
}

#[test]
fn integration_test_data_file_smoke_test() {
    let Some(data) = read_data_file() else { return };
    let mut reader = create_reader(data).expect("Failed to create reader");
    for i in 0..10 {
        match reader.next() {
            Some(Ok(raw)) => println!("Record {}: 0x{:032x}", i, raw),
            Some(Err(e)) => {
                println!("Error reading record {}: {:?}", i, e);
                break;
            }
            None => break,
        }
    }
}

#[test]
fn integration_test_validate_expected_counts_function() {
    assert!(validate_expected_counts(&expected_all_boards_counts()).is_ok());
    let mut wrong_counts = expected_all_boards_counts().to_vec();
    wrong_counts[0] += 1;
    assert!(validate_expected_counts(&wrong_counts).is_err());
    let short_counts = vec![0u32; 80];
    assert!(validate_expected_counts(&short_counts).is_err());
}

#[test]
fn integration_test_limited_records_counting() {
    let Some(data) = read_data_file() else { return };
    let mut reader = create_reader(data).expect("Failed to create reader");
    let mut counts = vec![0u32; 81];
    let mut total_matched: u64 = 0;
    for _ in 0..1000 {
        let raw = match reader.next() {
            Some(Ok(val)) => val,
            Some(Err(e)) => panic!("Error reading: {:?}", e),
            None => break,
        };
        total_matched += 1;
        for bit in 0..81 {
            if (raw >> bit) & 1 == 1 {
                counts[bit] += 1;
            }
        }
    }
    assert!(total_matched > 0, "Should have processed some records");
    assert!(counts.iter().any(|&c| c > 0), "Should have some non-zero counts");
}

#[test]
fn integration_test_full_data_with_progress() {
    let Some(data) = read_data_file() else { return };
    let (counts, matched) = filter_and_count_data(data, 0, 0).expect("Failed to process board data file");
    println!("Processed {} total records", matched);
    validate_expected_counts(&counts).expect("Counts don't match expected values!");
}

#[test]
fn lib_test_data_file_smoke_test() {
    let Some(data) = read_data_file() else { return };
    let mut reader = create_reader(data).expect("Failed to create reader");
    for i in 0..10 {
        match reader.next() {
            Some(Ok(raw)) => println!("Record {}: 0x{:032x}", i, raw),
            Some(Err(e)) => {
                println!("Error reading record {}: {:?}", i, e);
                break;
            }
            None => break,
        }
    }
}

#[test]
fn lib_test_limited_records_counting() {
    let Some(data) = read_data_file() else { return };
    let mut reader = create_reader(data).expect("Failed to create reader");
    let mut counts = vec![0u32; 81];
    let mut total_matched: u64 = 0;
    for _ in 0..1000 {
        let raw = match reader.next() {
            Some(Ok(val)) => val,
            Some(Err(e)) => panic!("Error reading: {:?}", e),
            None => break,
        };
        total_matched += 1;
        for bit in 0..81 {
            if (raw >> bit) & 1 == 1 {
                counts[bit] += 1;
            }
        }
    }
    assert!(total_matched > 0, "Should have processed some records");
    assert!(counts.iter().any(|&c| c > 0), "Should have some non-zero counts");
}

#[test]
fn lib_test_full_data_with_progress() {
    let Some(data) = read_data_file() else { return };
    let (counts, matched) = filter_and_count_data(data, 0, 0).expect("Failed to process board data file");
    println!("Processed {} total records", matched);
    validate_expected_counts(&counts).expect("Counts don't match expected values!");
}

#[test]
fn tests_test_data_file_smoke_test() {
    let Some(data) = read_data_file() else { return };
    let mut reader = create_reader(data).expect("Failed to create reader");
    for i in 0..10 {
        match reader.next() {
            Some(Ok(raw)) => println!("Record {}: 0x{:032x}", i, raw),
            Some(Err(e)) => {
                println!("Error reading record {}: {:?}", i, e);
                break;
            }
            None => break,
        }
    }
}

#[test]
fn tests_test_limited_records_counting() {
    let Some(data) = read_data_file() else { return };
    let mut reader = create_reader(data).expect("Failed to create reader");
    let mut counts = vec![0u32; 81];
    let mut total_matched: u64 = 0;
    for _ in 0..1000 {
        let raw = match reader.next() {
            Some(Ok(val)) => val,
            Some(Err(e)) => panic!("Error reading: {:?}", e),
            None => break,
        };
        total_matched += 1;
        for bit in 0..81 {
            if (raw >> bit) & 1 == 1 {
                counts[bit] += 1;
            }
        }
    }
    assert!(total_matched > 0, "Should have processed some records");
    assert!(counts.iter().any(|&c| c > 0), "Should have some non-zero counts");
}

#[test]
fn tests_test_full_data_with_progress() {
    let Some(data) = read_data_file() else { return };
    let (counts, matched) = filter_and_count_data(data, 0, 0).expect("Failed to process board data file");
    println!("Processed {} total records", matched);
    validate_expected_counts(&counts).expect("Counts don't match expected values!");
}

#[test]
fn empty_stream_counts_nothing() {
    let (counts, matched) = filter_and_count_reader(&[], 0, 0).unwrap();
    assert_eq!(counts, vec![0u32; 81]);
    assert_eq!(matched, 0);
    let (counts, matched) = filter_and_count(Vec::<std::io::Result<u128>>::new(), 0, 0).unwrap();
    assert_eq!(counts, vec![0u32; 81]);
    assert_eq!(matched, 0);
}

#[test]
fn single_zero_record_matches_once() {
    let data = vec![0u8; 16];
    let (counts, matched) = filter_and_count_reader(&data, 0, 0).unwrap();
    assert_eq!(counts, vec![0u32; 81]);
    assert_eq!(matched, 1);
}

#[test]
fn delta_round_trip_scenario() {
    let logical = records_bytes(&[0x01, 0x03, 0x07]);
    let mut last = 0u128;
    let mut encoded = Vec::new();
    let (count, union, intersection) = write_chunk(&logical, 10, &mut last, &mut encoded).unwrap();
    assert_eq!((count, union, intersection), (3, 0x07, 0x01));
    assert_eq!(last, 0x07);
    assert_eq!(encoded, records_bytes(&[0x01, 0x02, 0x04]));

    let decoded: Vec<u128> = DeltaDecodingReader::new(encoded.clone())
        .into_records()
        .into_iter()
        .map(|r| r.unwrap())
        .collect();
    assert_eq!(decoded, vec![0x01, 0x03, 0x07]);

    let (counts, matched) = filter_and_count_reader(&encoded, 0, 0).unwrap();
    assert_eq!(matched, 3);
    assert_eq!(&counts[0..3], &[3, 2, 1]);
    assert!(counts[3..].iter().all(|&c| c == 0));
}

#[test]
fn hit_mask_filter_scenario() {
    let encoded = records_bytes(&[0x01, 0x02, 0x04]);
    let (counts, matched) = filter_and_count_reader(&encoded, 0x4, 0).unwrap();
    assert_eq!(matched, 1);
    assert_eq!(&counts[0..3], &[1, 1, 1]);
    assert!(counts[3..].iter().all(|&c| c == 0));
}

#[test]
fn miss_mask_filter_scenario() {
    let encoded = records_bytes(&[0x01, 0x02, 0x04]);
    let (counts, matched) = filter_and_count_reader(&encoded, 0, 0x2).unwrap();
    assert_eq!(matched, 1);
    assert_eq!(&counts[0..3], &[1, 0, 0]);
}

#[test]
fn conflicting_masks_match_nothing() {
    let encoded = records_bytes(&[0x01, 0x03, 0x07, 0x1ff]);
    let (counts, matched) = filter_and_count_reader(&encoded, 0x3, 0x2).unwrap();
    assert_eq!(matched, 0);
    assert_eq!(counts, vec![0u32; 81]);
}

#[test]
fn filtering_then_counting_matches_counting_with_masks() {
    let boards = [0x07u128, 0x05, 0x1ff, 0x100, 0x03];
    let kept = filter_records(&boards, 0x1, 0x100);
    assert_eq!(kept, vec![0x07, 0x05, 0x03]);
    let direct = filter_and_count_reader_raw(&records_bytes(&boards), 0x1, 0x100).unwrap();
    let filtered = filter_and_count_reader_raw(&records_bytes(&kept), 0, 0).unwrap();
    assert_eq!(direct, filtered);
}

#[test]
fn more_mask_bits_never_match_more() {
    let data = records_bytes(&[0x07, 0x05, 0x1ff, 0x100, 0x03]);
    let (_, base) = filter_and_count_reader_raw(&data, 0x1, 0).unwrap();
    let (_, more_hit) = filter_and_count_reader_raw(&data, 0x3, 0).unwrap();
    let (_, more_miss) = filter_and_count_reader_raw(&data, 0x1, 0x4).unwrap();
    assert_eq!(base, 4);
    assert_eq!(more_hit, 3);
    assert_eq!(more_miss, 1);
}

#[test]
fn counts_sum_to_cells_per_board() {
    let board_a: u128 = (1 << 27) - 1;
    let board_b: u128 = ((1u128 << 27) - 1) << 54;
    let (counts, matched) = filter_and_count_reader_raw(&records_bytes(&[board_a, board_b, board_a]), 0, 0).unwrap();
    let total: u64 = counts.iter().map(|&c| c as u64).sum();
    assert_eq!(total, 27 * matched);
    assert_eq!(counts[0], 2);
    assert_eq!(counts[80], 1);
}

#[test]
fn bits_beyond_the_board_are_not_counted() {
    let board: u128 = (1u128 << 81) | (1u128 << 100) | 1;
    let (counts, matched) = filter_and_count_reader_raw(&records_bytes(&[board]), 0, 0).unwrap();
    assert_eq!(matched, 1);
    assert_eq!(counts[0], 1);
    assert_eq!(counts.iter().map(|&c| c as u64).sum::<u64>(), 1);
}

#[test]
fn truncated_stream_is_an_error() {
    let mut data = records_bytes(&[0x01, 0x02]);
    data.push(0xff);
    assert!(matches!(filter_and_count_reader(&data, 0, 0), Err(StreamError::Truncated)));
    assert!(matches!(filter_and_count_reader_raw(&data, 0, 0), Err(StreamError::Truncated)));
    assert!(matches!(filter_and_count_with_format(data.clone(), 0, 0, true), Err(StreamError::Truncated)));
    let items = DeltaDecodingReader::new(data).into_records();
    assert_eq!(items.len(), 3);
    assert!(matches!(items[2], Err(StreamError::Truncated)));
}

#[test]
fn reader_yields_records_then_stops() {
    let mut reader = DeltaDecodingReader::new(records_bytes(&[0x01, 0x02]));
    assert!(matches!(reader.next(), Some(Ok(0x01))));
    assert!(matches!(reader.next(), Some(Ok(0x03))));
    assert!(reader.next().is_none());
    let mut short = DeltaDecodingReader::new(vec![1, 2, 3]);
    assert!(matches!(short.next(), Some(Err(StreamError::Truncated))));
    assert!(short.next().is_none());
}

#[test]
fn first_error_of_a_record_stream_is_returned() {
    let records: Vec<Result<u128, &str>> = vec![Ok(1), Err("first"), Ok(2), Err("second")];
    assert_eq!(filter_and_count(records, 0, 0), Err("first"));
}

#[test]
fn zstd_framed_stream_is_decompressed() {
    let plain = records_bytes(&[0x01, 0x02, 0x04]);
    let framed = zstd::stream::encode_all(plain.as_slice(), 3).unwrap();
    assert_eq!(&framed[0..4], &[0x28, 0xB5, 0x2F, 0xFD]);
    let (counts, matched) = filter_and_count_with_format(framed.clone(), 0, 0, true).unwrap();
    assert_eq!(matched, 3);
    assert_eq!(&counts[0..3], &[3, 2, 1]);
    let (_, raw_matched) = filter_and_count_with_format(framed.clone(), 0x2, 0, false).unwrap();
    assert_eq!(raw_matched, 1);
    let decoded: Vec<u128> = create_reader(framed).unwrap().into_records().into_iter().map(|r| r.unwrap()).collect();
    assert_eq!(decoded, vec![0x01, 0x03, 0x07]);
}

#[test]
fn broken_zstd_frame_is_an_error() {
    let data = vec![0x28, 0xB5, 0x2F, 0xFD, 0, 0, 0];
    assert!(matches!(filter_and_count_data(data, 0, 0), Err(StreamError::Decompress(_))));
}

#[test]
fn short_stream_is_taken_as_plain() {
    let (counts, matched) = filter_and_count_data(vec![], 0, 0).unwrap();
    assert_eq!(matched, 0);
    assert_eq!(counts.len(), 81);
    let (counts, matched) = filter_and_count_data(vec![0x28, 0xB5, 0x2F], 0, 0).unwrap();
    assert_eq!(matched, 0);
    assert_eq!(counts, vec![0u32; 81]);
    assert!(matches!(filter_and_count_data(vec![1, 2, 3, 4, 5], 0, 0), Err(StreamError::Truncated)));
}

#[test]
fn chunks_carry_the_delta_over() {
    let logical = records_bytes(&[0x01, 0x03, 0x07, 0x0f]);
    let mut last = 0u128;
    let mut encoded = Vec::new();
    let first = write_chunk(&logical, 2, &mut last, &mut encoded).unwrap();
    assert_eq!(first, (2, 0x03, 0x01));
    let second = write_chunk(&logical[32..], 2, &mut last, &mut encoded).unwrap();
    assert_eq!(second, (2, 0x0f, 0x07));
    assert_eq!(encoded, records_bytes(&[0x01, 0x02, 0x04, 0x08]));
    let empty = write_chunk(&[], 2, &mut last, &mut encoded).unwrap();
    assert_eq!(empty, (0, 0, !0u128));
    let mut truncated = records_bytes(&[0x01]);
    truncated.push(7);
    assert!(matches!(write_chunk(&truncated, 5, &mut last, &mut encoded), Err(StreamError::Truncated)));
    assert_eq!(last, 0x0f);
}

#[test]
fn chunk_counts_merge() {
    let mut acc = process_chunk(&[0x01, 0x03]);
    let other = process_chunk(&[0x07]);
    merge_counts(&mut acc, &other);
    assert_eq!(&acc[0..3], &[3, 2, 1]);
}

#[test]
fn validation_reports_the_first_mismatch() {
    let mut counts = expected_all_boards_counts();
    counts[40] = 5;
    counts[50] = 6;
    assert_eq!(
        validate_expected_counts(&counts),
        Err(CountMismatch::Mismatch { position: 40, expected: 83039340, actual: 5 })
    );
    assert_eq!(validate_expected_counts(&[1, 2]), Err(CountMismatch::WrongLength { got: 2 }));
}

#[test]
fn expected_heatmap_has_the_symmetries_of_the_square() {
    let counts = expected_all_boards_counts();
    assert_eq!(counts[0], 91828984);
    assert_eq!(counts[40], 83039340);
    for y in 0..9usize {
        for x in 0..9usize {
            let c = counts[y * 9 + x];
            let images = [(8 - x, y), (x, 8 - y), (8 - x, 8 - y), (y, x), (8 - y, x), (y, 8 - x), (8 - y, 8 - x)];
            for (nx, ny) in images {
                assert_eq!(counts[ny * 9 + nx], c);
            }
        }
    }
}
