use station_stats::align::{align_chunks, Aligner, Alignment};
use station_stats::distribute::{check_chunk_read, claim_all, AlignmentStream};
use station_stats::emit::{print_out, push_scaled, sorted_entries};
use station_stats::error::RunError;
use station_stats::pipeline::summarize;
use station_stats::reader::Reader;
use station_stats::stats::StationData;
use station_stats::table::{parse_chunk, StationMap};

const BIG: u64 = 32 * 1024 * 1024;

fn local_table(text: &[u8]) -> StationMap {
    let mut reader = Reader::new(text.to_vec());
    let mut map = StationMap::new();
    parse_chunk(&mut reader, &mut map).unwrap();
    map
}

#[test]
fn aggregation_of_literal_input() {
    let out = summarize(b"St1;10.0\nSt2;-5.5\nSt1;20.0\n", BIG, 100).unwrap();
    assert_eq!(out, b"St1=10.0/20.0/15.0\nSt2=-5.5/-5.5/-5.5\n".to_vec());
}

#[test]
fn aggregation_with_small_chunks_matches_one_chunk() {
    let data = b"St1;10.0\nSt2;-5.5\nSt1;20.0\nAbha;-23.4\nAbha;18.3\nSt2;7.1\n";
    let whole = summarize(data, BIG, 100).unwrap();
    let split = summarize(data, 7, 20).unwrap();
    assert_eq!(whole, split);
    assert_eq!(whole, b"Abha=-23.4/18.3/-2.5\nSt1=10.0/20.0/15.0\nSt2=-5.5/7.1/0.8\n".to_vec());
}

#[test]
fn mean_truncates_toward_zero() {
    // 0.5 + 0.6 + 0.6 is a scaled 17 over 3 readings: 5, not a rounded 6.
    let out = summarize(b"a;0.5\na;0.6\na;0.6\n", BIG, 100).unwrap();
    assert_eq!(out, b"a=0.5/0.6/0.5\n".to_vec());
    let out = summarize(b"b;-0.5\nb;-0.6\nb;-0.6\n", BIG, 100).unwrap();
    assert_eq!(out, b"b=-0.6/-0.5/-0.5\n".to_vec());
}

#[test]
fn line_without_delimiter_is_fatal() {
    let r = summarize(b"St1;1.0\nbad\nSt2;2.0\n", BIG, 100);
    assert_eq!(r, Err(RunError::MalformedRecord { offset: 8, line: b"bad".to_vec() }));
}

#[test]
fn malformed_record_offset_is_in_file() {
    let data = b"aa;1.0\nbb;2.0\ncc;3.0\nnope\n";
    let r = summarize(data, 10, 20);
    assert_eq!(r, Err(RunError::MalformedRecord { offset: 21, line: b"nope".to_vec() }));
}

#[test]
fn alignment_covers_file_without_splitting_lines() {
    let mut data = Vec::new();
    for i in 0..200u32 {
        data.extend_from_slice(format!("station{};{}.{}\n", i % 17, i % 50, i % 10).as_bytes());
    }
    let chunks = align_chunks(&data, 64, 40).unwrap();
    assert!(chunks.len() > 1);
    assert_eq!(chunks[0].start, 0);
    assert_eq!(chunks[chunks.len() - 1].end, data.len() as u64);
    let mut rebuilt = Vec::new();
    for (i, c) in chunks.iter().enumerate() {
        assert!(c.start < c.end);
        if i + 1 < chunks.len() {
            assert_eq!(c.end, chunks[i + 1].start);
            assert_eq!(data[c.end as usize - 1], b'\n');
        }
        rebuilt.extend_from_slice(&data[c.start as usize..c.end as usize]);
    }
    assert_eq!(rebuilt, data);
}

#[test]
fn alignment_of_exact_boundaries() {
    let data = b"ab;1.0\ncd;2.0\n";
    let chunks = align_chunks(data, 7, 7).unwrap();
    assert_eq!(chunks, vec![Alignment { start: 0, end: 14 }]);
    let chunks = align_chunks(data, 3, 7).unwrap();
    assert_eq!(chunks, vec![Alignment { start: 0, end: 7 }, Alignment { start: 7, end: 14 }]);
}

#[test]
fn alignment_keeps_unterminated_last_line() {
    let data = b"ab;1.0\ncd;2.0\nef;3.0";
    let chunks = align_chunks(data, 5, 10).unwrap();
    assert_eq!(chunks.last().unwrap().end, data.len() as u64);
    let out = summarize(data, 5, 10).unwrap();
    assert_eq!(out, b"ab=1.0/1.0/1.0\ncd=2.0/2.0/2.0\nef=3.0/3.0/3.0\n".to_vec());
}

#[test]
fn alignment_of_empty_input() {
    assert_eq!(align_chunks(b"", 4, 4).unwrap(), Vec::<Alignment>::new());
    assert_eq!(summarize(b"", 4, 4).unwrap(), Vec::<u8>::new());
}

#[test]
fn line_longer_than_window_fails_alignment() {
    let data = b"a_very_long_station_name;1.0\nb;2.0\n";
    let r = align_chunks(data, 4, 5);
    assert_eq!(r, Err(RunError::AlignmentFailure { offset: 4 }));
    assert_eq!(summarize(data, 4, 5), Err(RunError::AlignmentFailure { offset: 4 }));
}

#[test]
fn aligner_steps_through_windows() {
    let data = b"ab;1.0\ncd;2.0\nef;3.0\n";
    let mut aligner = Aligner::new(data.len() as u64, 8, 6);
    let mut windows = 0;
    while let Some((start, end)) = aligner.next_window() {
        aligner.advance(&data[start as usize..end as usize]).unwrap();
        windows += 1;
    }
    assert_eq!(windows, 1);
    let chunks = aligner.finish();
    assert_eq!(chunks, align_chunks(data, 8, 6).unwrap());
    assert_eq!(chunks, vec![Alignment { start: 0, end: 14 }, Alignment { start: 14, end: 21 }]);
}

#[test]
fn merge_order_does_not_change_result() {
    let texts: [&[u8]; 3] = [b"a;1.0\nb;2.0\n", b"b;-3.0\nc;4.5\n", b"a;9.9\nc;-0.1\nd;0.0\n"];
    let orders = [[0usize, 1, 2], [2, 1, 0], [1, 0, 2], [2, 0, 1]];
    let mut outputs = Vec::new();
    for order in orders.iter() {
        let mut global = StationMap::new();
        for &i in order.iter() {
            global.combine(local_table(texts[i])).unwrap();
        }
        outputs.push(print_out(global));
    }
    for o in outputs.iter() {
        assert_eq!(o, &outputs[0]);
    }
    assert_eq!(
        outputs[0],
        b"a=1.0/9.9/5.4\nb=-3.0/2.0/-0.5\nc=-0.1/4.5/2.2\nd=0.0/0.0/0.0\n".to_vec()
    );
}

#[test]
fn counts_add_up_to_number_of_records() {
    let n = 1000u64;
    let mut data = Vec::new();
    for i in 0..n {
        data.extend_from_slice(format!("s{};{}.{}\n", i % 13, i % 40, i % 10).as_bytes());
    }
    let chunks = align_chunks(&data, 300, 64).unwrap();
    let mut global = StationMap::new();
    for c in chunks.iter() {
        global.combine(local_table(&data[c.start as usize..c.end as usize])).unwrap();
    }
    let total: u64 = sorted_entries(global).iter().map(|e| e.1.count()).sum();
    assert_eq!(total, n);
}

#[test]
fn reading_too_large_overflows() {
    let r = summarize(b"x;1.0\na;99999999999999999999\n", BIG, 100);
    assert_eq!(r, Err(RunError::NumericOverflow { offset: 8 }));
}

#[test]
fn reader_reads_key_and_value() {
    let mut reader = Reader::new(b"abc;-12.3\nd;4.0".to_vec());
    assert!(reader.has_remaining());
    assert_eq!(reader.read_station_name().unwrap(), (0, 3));
    assert_eq!(reader.read_temp().unwrap(), -123);
    assert_eq!(reader.read_station_name().unwrap(), (10, 11));
    assert_eq!(reader.read_temp().unwrap(), 40);
    assert!(!reader.has_remaining());
}

#[test]
fn reader_accepts_empty_key() {
    let out = summarize(b";1.5\n;2.5\n", BIG, 100).unwrap();
    assert_eq!(out, b"=1.5/2.5/2.0\n".to_vec());
}

#[test]
fn statistic_folds_readings() {
    let mut s = StationData::new(100);
    s.add_temp_data(-55);
    s.add_temp_data(200);
    assert_eq!(s.count(), 3);
    assert_eq!(s.min(), -55);
    assert_eq!(s.max(), 200);
    assert_eq!(s.sum(), 245);
    assert_eq!(s.calculate_mean(), 81);
    assert_eq!(s.to_text(), b"-5.5/20.0/8.1".to_vec());
    let mut t = StationData::new(-7);
    t.combine(&s);
    assert_eq!(t.count(), 4);
    assert_eq!(t.min(), -55);
    assert_eq!(t.sum(), 238);
}

#[test]
fn scaled_values_show_one_fractional_digit() {
    let cases: [(i64, &[u8]); 6] =
        [(0, b"0.0"), (5, b"0.5"), (-5, b"-0.5"), (123, b"12.3"), (-999, b"-99.9"), (1000, b"100.0")];
    for (x, text) in cases.iter() {
        let mut out = Vec::new();
        push_scaled(&mut out, *x);
        assert_eq!(out, text.to_vec());
    }
}

#[test]
fn keys_sort_bytewise() {
    let out = summarize(b"b;1.0\nB;1.0\nab;1.0\na;1.0\n\xc3\xa9;1.0\n", BIG, 100).unwrap();
    assert_eq!(out, b"B=1.0/1.0/1.0\na=1.0/1.0/1.0\nab=1.0/1.0/1.0\nb=1.0/1.0/1.0\n\xc3\xa9=1.0/1.0/1.0\n".to_vec());
}

#[test]
fn station_map_add_and_sorted_entries() {
    let mut map = StationMap::new();
    map.add_reading(b"k", 3);
    map.add_reading(b"k", 5);
    map.add_reading(b"j", -1);
    let entries = sorted_entries(map);
    assert_eq!(entries.len(), 2);
    assert_eq!(entries[0].0, b"j".to_vec());
    assert_eq!(entries[0].1.count(), 1);
    assert_eq!(entries[1].0, b"k".to_vec());
    assert_eq!(entries[1].1.count(), 2);
    assert_eq!(entries[1].1.min(), 3);
    assert_eq!(entries[1].1.max(), 5);
}

#[test]
fn combine_merges_shared_keys() {
    let mut a = local_table(b"x;1.0
y;2.0
");
    a.combine(local_table(b"y;-4.0
z;0.5
")).unwrap();
    let entries = sorted_entries(a);
    assert_eq!(entries.len(), 3);
    assert_eq!(entries[1].0, b"y".to_vec());
    assert_eq!(entries[1].1.count(), 2);
    assert_eq!(entries[1].1.min(), -40);
    assert_eq!(entries[1].1.max(), 20);
    assert_eq!(entries[1].1.sum(), -20);
}

#[test]
fn distributor_hands_out_each_chunk_once() {
    let chunks = vec![Alignment { start: 0, end: 5 }, Alignment { start: 5, end: 9 }];
    let mut stream = AlignmentStream::new(chunks.clone());
    assert_eq!(stream.size_hint(), (0, Some(2)));
    assert_eq!(stream.claim_next(), Some(chunks[0]));
    assert_eq!(stream.size_hint(), (1, Some(2)));
    assert_eq!(claim_all(&mut stream), vec![chunks[1]]);
    assert_eq!(stream.claim_next(), None);
    assert_eq!(stream.len(), 2);
}

#[test]
fn short_read_is_fatal() {
    let c = Alignment { start: 10, end: 30 };
    assert_eq!(check_chunk_read(c, 20), Ok(()));
    assert_eq!(check_chunk_read(c, 12), Err(RunError::ShortRead { start: 10, expected: 20, got: 12 }));
}

#[test]
fn largest_readings_fit_and_one_more_overflows() {
    let out = summarize(b"m;922337203685477580.7
n;-922337203685477580.7
", BIG, 100).unwrap();
    assert_eq!(
        out,
        b"m=922337203685477580.7/922337203685477580.7/922337203685477580.7
n=-922337203685477580.7/-922337203685477580.7/-922337203685477580.7
"
            .to_vec()
    );
    let r = summarize(b"m;922337203685477580.8
", BIG, 100);
    assert_eq!(r, Err(RunError::NumericOverflow { offset: 2 }));
}

#[test]
fn smallest_scaled_value_is_shown_exactly() {
    let mut out = Vec::new();
    push_scaled(&mut out, i64::MIN);
    assert_eq!(out, b"-922337203685477580.8".to_vec());
}

#[test]
fn readings_without_fraction_are_scaled_as_written() {
    // The format always carries one fractional digit; "12" reads as 1.2.
    let out = summarize(b"a;12
", BIG, 100).unwrap();
    assert_eq!(out, b"a=1.2/1.2/1.2
".to_vec());
}
