use liminal_db::wal::{
    encode_record, gc_victims, last_snapshot_id, latest_snapshot_id, next_snapshot_id, normalize_numbers,
    plan_append, read_record, read_records, segment_of_file_name, snapshot_file_name, snapshot_of_file_name,
    stream_start_index, wal_file_name, writer_segment, Offset, RecordRead, SegmentEnd, WalWriterState,
    DEFAULT_SEGMENT_SIZE,
};

fn log_of(payloads: &[Vec<u8>]) -> Vec<u8> {
    let mut buf = Vec::new();
    for p in payloads {
        buf.extend_from_slice(&encode_record(p));
    }
    buf
}

#[test]
fn wal_round_trip() {
    let payloads = vec![b"hello".to_vec(), b"world".to_vec(), b"liminal".to_vec()];
    let buf = log_of(&payloads);
    let (collected, end) = read_records(&buf, 0);
    assert_eq!(collected, payloads);
    assert_eq!(end, SegmentEnd::Clean);
}

#[test]
fn wal_crc_detects_corruption() {
    let mut buf = encode_record(b"data");
    buf[2] ^= 0xFF;
    let first = read_record(&buf, 0);
    assert!(matches!(first, RecordRead::Truncated | RecordRead::Corrupt), "corruption must be detected");
}

#[test]
fn a_flipped_payload_byte_fails_the_checksum() {
    let mut buf = encode_record(b"data");
    buf[5] ^= 0x01;
    assert_eq!(read_record(&buf, 0), RecordRead::Corrupt);
    let (records, end) = read_records(&buf, 0);
    assert!(records.is_empty());
    assert_eq!(end, SegmentEnd::Corrupt);
}

#[test]
fn record_frame_is_length_payload_crc() {
    let frame = encode_record(b"abc");
    assert_eq!(&frame[0..4], &[3, 0, 0, 0]);
    assert_eq!(&frame[4..7], b"abc");
    assert_eq!(&frame[7..11], &crc32fast::hash(b"abc").to_le_bytes());
    assert_eq!(read_record(&frame, 0), RecordRead::Record(b"abc".to_vec(), 11));
    assert_eq!(read_record(&frame, 11), RecordRead::End);
}

#[test]
fn a_cut_record_reads_as_truncated_after_the_whole_ones() {
    let mut buf = log_of(&[b"one".to_vec(), b"two".to_vec()]);
    buf.truncate(buf.len() - 2);
    let (records, end) = read_records(&buf, 0);
    assert_eq!(records, vec![b"one".to_vec()]);
    assert_eq!(end, SegmentEnd::Truncated);
    let short = vec![1u8, 0];
    assert_eq!(read_record(&short, 0), RecordRead::End);
}

#[test]
fn empty_payloads_round_trip() {
    let buf = log_of(&[Vec::new(), b"x".to_vec(), Vec::new()]);
    let (records, end) = read_records(&buf, 0);
    assert_eq!(records, vec![Vec::new(), b"x".to_vec(), Vec::new()]);
    assert_eq!(end, SegmentEnd::Clean);
}

#[test]
fn appends_rotate_past_the_segment_size() {
    let mut st = WalWriterState { segment: 1, size: 0, rotation: 20 };
    let (at, rotated) = plan_append(&mut st, 5);
    assert_eq!((at, rotated), (Offset { segment: 1, position: 0 }, false));
    assert_eq!(st.size, 13);
    let (at, rotated) = plan_append(&mut st, 5);
    assert_eq!((at, rotated), (Offset { segment: 2, position: 0 }, true));
    assert_eq!((st.segment, st.size), (2, 13));
    let (at, rotated) = plan_append(&mut st, 0);
    assert_eq!((at, rotated), (Offset { segment: 3, position: 0 }, true));
    assert_eq!(st.size, 8);
    let (at, rotated) = plan_append(&mut st, 4);
    assert_eq!((at, rotated), (Offset { segment: 3, position: 8 }, false));
    assert_eq!(st.size, 20);
    assert_eq!(DEFAULT_SEGMENT_SIZE, 32 * 1024 * 1024);
}

#[test]
fn file_names_are_zero_padded_numbers() {
    assert_eq!(wal_file_name(1), "00000001.wal");
    assert_eq!(snapshot_file_name(42), "00000042.snap");
    assert_eq!(wal_file_name(123456789), "123456789.wal");
    assert_eq!(segment_of_file_name("00000007.wal"), Some(7));
    assert_eq!(segment_of_file_name("7.wal"), Some(7));
    assert_eq!(segment_of_file_name("00000007.snap"), None);
    assert_eq!(segment_of_file_name("x7.wal"), None);
    assert_eq!(snapshot_of_file_name("00000003.snap"), Some(3));
    assert_eq!(snapshot_of_file_name(".snap"), None);
}

#[test]
fn segment_listing_is_sorted_and_deduplicated() {
    assert_eq!(normalize_numbers(&vec![3, 1, 2, 3], true), vec![1, 2, 3]);
    assert_eq!(normalize_numbers(&vec![], true), vec![1]);
    assert_eq!(normalize_numbers(&vec![], false), Vec::<u64>::new());
    assert_eq!(writer_segment(&vec![1, 4, 9]), 9);
}

#[test]
fn streams_start_at_the_first_segment_not_before_the_offset() {
    let segs = vec![2, 5, 8];
    assert_eq!(stream_start_index(&segs, Offset { segment: 1, position: 0 }), 0);
    assert_eq!(stream_start_index(&segs, Offset { segment: 5, position: 9 }), 1);
    assert_eq!(stream_start_index(&segs, Offset { segment: 6, position: 0 }), 2);
    assert_eq!(stream_start_index(&segs, Offset { segment: 9, position: 0 }), 2);
    assert_eq!(stream_start_index(&vec![], Offset::start()), 0);
}

#[test]
fn compaction_keeps_the_current_segment_and_later_ones() {
    let segs = vec![1, 2, 3, 4, 5];
    assert_eq!(gc_victims(&segs, Offset { segment: 4, position: 0 }, 2), vec![1, 3]);
    assert_eq!(gc_victims(&segs, Offset::start(), 5), Vec::<u64>::new());
}

#[test]
fn snapshot_ids_follow_the_highest_listed() {
    assert_eq!(latest_snapshot_id(&vec![3, 9, 4]), 9);
    assert_eq!(latest_snapshot_id(&vec![]), 0);
    assert_eq!(next_snapshot_id(&vec![3, 9, 4]), 10);
    assert_eq!(next_snapshot_id(&vec![]), 1);
    assert_eq!(last_snapshot_id(0), None);
    assert_eq!(last_snapshot_id(5), Some(5));
}

#[test]
fn record_checksum_is_the_ieee_crc32() {
    let out = encode_record(b"123456789");
    assert_eq!(out.len(), 4 + 9 + 4);
    assert_eq!(&out[0..4], &9u32.to_le_bytes());
    assert_eq!(&out[4..13], b"123456789");
    assert_eq!(&out[13..17], &0xCBF4_3926u32.to_le_bytes());
    let empty = encode_record(b"");
    assert_eq!(&empty[4..8], &0u32.to_le_bytes());
}

#[test]
fn writer_starts_at_segment_one_without_segments() {
    assert_eq!(writer_segment(&vec![]), 1);
}
