use voxel_save::chunk::{
    decode_record, decode_runs, parse_chunk_data, unpack_run, chunk_coor, ChunkPayload, RunEntry,
};
use voxel_save::cursor::ByteCursor;
use voxel_save::error::DecodeError;

fn preamble() -> Vec<u8> {
    let mut v = vec![0x07u8];
    v.extend_from_slice(b"version-1.2.3\0\0\0");
    v.push(0x00);
    v.extend_from_slice(b"chunk");
    assert_eq!(v.len(), 23);
    v
}

fn header(length: i32, x: u8, y: u8, z: u8, tag: u8) -> Vec<u8> {
    let mut v = Vec::new();
    v.extend_from_slice(&length.to_le_bytes());
    v.extend_from_slice(&[0xAA, 0xBB, 0xCC, 0xDD]);
    v.extend_from_slice(&[x, y, z, tag]);
    v
}

fn stream(records: &[Vec<u8>]) -> Vec<u8> {
    let mut v = preamble();
    for (i, r) in records.iter().enumerate() {
        if i > 0 {
            v.push(b'+');
        }
        v.push(b':');
        v.extend_from_slice(r);
        v.push(b'\n');
    }
    v
}

#[test]
fn empty_record_decodes_to_one_record() {
    let data = stream(&[header(8, 1, 2, 3, 0)]);
    let chunk = parse_chunk_data(&data).unwrap();
    assert_eq!(chunk.records.len(), 1);
    let r = &chunk.records[0];
    assert_eq!(r.length, 8);
    assert_eq!(r.coordinate, chunk_coor { x: 1, y: 2, z: 3 });
    assert_eq!(r.type_tag, 0);
    assert_eq!(r.payload, ChunkPayload::Empty);
}

#[test]
fn preamble_strings_are_read() {
    let data = stream(&[header(8, 0, 0, 0, 0)]);
    let chunk = parse_chunk_data(&data).unwrap();
    assert_eq!(chunk.version, "version-1.2.3\0\0\0");
    assert_eq!(chunk.marker, "chunk");
}

#[test]
fn preamble_with_invalid_utf8_is_replaced() {
    let mut data = preamble();
    data[1] = 0xFF;
    let chunk = parse_chunk_data(&data).unwrap();
    assert_eq!(chunk.version, "\u{FFFD}ersion-1.2.3\0\0\0");
    assert!(chunk.records.is_empty());
}

#[test]
fn run_length_record_unpacks_rotation_and_index() {
    let mut rec = header(12, 4, 5, 6, 9);
    rec.extend_from_slice(&[0x03, 0x00, 0x05, 0x10]);
    let chunk = parse_chunk_data(&stream(&[rec])).unwrap();
    assert_eq!(chunk.records.len(), 1);
    assert_eq!(chunk.records[0].length, 12);
    assert_eq!(chunk.records[0].type_tag, 9);
    assert_eq!(
        chunk.records[0].payload,
        ChunkPayload::Runs(vec![RunEntry { block_count: 3, rotation: 1, block_index: 5 }])
    );
}

#[test]
fn unpack_run_exact_values() {
    assert_eq!(unpack_run(3, 0x1005), RunEntry { block_count: 3, rotation: 1, block_index: 5 });
    assert_eq!(unpack_run(-2, 0x7FFF), RunEntry { block_count: -2, rotation: 7, block_index: 4095 });
    assert_eq!(unpack_run(0, 0), RunEntry { block_count: 0, rotation: 0, block_index: 0 });
}

#[test]
fn unpack_run_high_bit_set_gives_rotation_up_to_fifteen() {
    let details = 0xF005u16 as i16;
    assert_eq!(unpack_run(1, details), RunEntry { block_count: 1, rotation: 15, block_index: 5 });
    let details = 0x8000u16 as i16;
    assert_eq!(unpack_run(1, details), RunEntry { block_count: 1, rotation: 8, block_index: 0 });
}

#[test]
fn run_length_record_with_several_entries_keeps_order() {
    let mut rec = header(20, 0, 0, 0, 9);
    rec.extend_from_slice(&[0x01, 0x00, 0x01, 0x00]);
    rec.extend_from_slice(&[0xFF, 0xFF, 0x02, 0x20]);
    rec.extend_from_slice(&[0x00, 0x01, 0xFF, 0xFF]);
    let chunk = parse_chunk_data(&stream(&[rec])).unwrap();
    assert_eq!(
        chunk.records[0].payload,
        ChunkPayload::Runs(vec![
            RunEntry { block_count: 1, rotation: 0, block_index: 1 },
            RunEntry { block_count: -1, rotation: 2, block_index: 2 },
            RunEntry { block_count: 256, rotation: 15, block_index: 4095 },
        ])
    );
}

#[test]
fn raw_record_keeps_its_bytes() {
    let mut rec = header(11, 9, 8, 7, 8);
    rec.extend_from_slice(&[0x0A, 0x2B, 0x3A]);
    let chunk = parse_chunk_data(&stream(&[rec])).unwrap();
    assert_eq!(chunk.records[0].payload, ChunkPayload::Raw(vec![0x0A, 0x2B, 0x3A]));
    assert_eq!(chunk.records[0].coordinate, chunk_coor { x: 9, y: 8, z: 7 });
}

#[test]
fn misaligned_run_length_payload_is_rejected() {
    let mut rec = header(14, 0, 0, 0, 9);
    rec.extend_from_slice(&[1, 0, 2, 0, 3, 0, 4, 0]);
    let failure = parse_chunk_data(&stream(&[rec])).unwrap_err();
    assert_eq!(failure.error, DecodeError::InvalidRunLengthPayload);
    assert_eq!(failure.record_index, 0);
    assert!(failure.salvaged.is_empty());
}

#[test]
fn misaligned_run_length_payload_cut_short_is_truncated() {
    let mut data = preamble();
    data.push(b':');
    data.extend_from_slice(&header(14, 0, 0, 0, 9));
    data.extend_from_slice(&[1, 0, 2, 0, 3, 0]);
    let failure = parse_chunk_data(&data).unwrap_err();
    assert_eq!(failure.error, DecodeError::TruncatedInput);
}

#[test]
fn unknown_tag_halts_and_keeps_earlier_records() {
    let mut bad = header(10, 0, 0, 0, 200);
    bad.extend_from_slice(&[1, 2]);
    let data = stream(&[header(8, 1, 1, 1, 0), bad, header(8, 2, 2, 2, 0)]);
    let failure = parse_chunk_data(&data).unwrap_err();
    assert_eq!(failure.error, DecodeError::UnknownChunkType(200));
    assert_eq!(failure.record_index, 1);
    assert_eq!(failure.salvaged.len(), 1);
    assert_eq!(failure.salvaged[0].coordinate, chunk_coor { x: 1, y: 1, z: 1 });
}

#[test]
fn unknown_tag_leaves_the_payload_unread() {
    let mut bytes = header(10, 0, 0, 0, 200);
    bytes.extend_from_slice(&[1, 2]);
    let mut cur = ByteCursor::new(&bytes);
    assert_eq!(decode_record(&mut cur).unwrap_err(), DecodeError::UnknownChunkType(200));
    assert_eq!(cur.position(), 12);
    assert_eq!(cur.next_byte(), Some(1));
}

#[test]
fn record_length_below_eight_is_rejected() {
    let failure = parse_chunk_data(&stream(&[header(7, 0, 0, 0, 0)])).unwrap_err();
    assert_eq!(failure.error, DecodeError::InvalidRecordLength);
    let failure = parse_chunk_data(&stream(&[header(-1, 0, 0, 0, 8)])).unwrap_err();
    assert_eq!(failure.error, DecodeError::InvalidRecordLength);
}

#[test]
fn empty_record_with_payload_is_rejected() {
    let mut rec = header(9, 0, 0, 0, 0);
    rec.push(0);
    let failure = parse_chunk_data(&stream(&[rec])).unwrap_err();
    assert_eq!(failure.error, DecodeError::InvalidChunkType0Length);
}

#[test]
fn missing_line_feed_is_malformed() {
    let mut data = preamble();
    data.push(b':');
    data.extend_from_slice(&header(8, 0, 0, 0, 0));
    data.push(b'x');
    let failure = parse_chunk_data(&data).unwrap_err();
    assert_eq!(failure.error, DecodeError::MalformedChunkTerminator);
    assert_eq!(failure.record_index, 0);
    assert!(failure.salvaged.is_empty());
}

#[test]
fn wrong_byte_after_line_feed_is_malformed_and_keeps_the_record() {
    let mut data = stream(&[header(8, 5, 5, 5, 0)]);
    data.push(b'x');
    let failure = parse_chunk_data(&data).unwrap_err();
    assert_eq!(failure.error, DecodeError::MalformedChunkTerminator);
    assert_eq!(failure.record_index, 1);
    assert_eq!(failure.salvaged.len(), 1);
}

#[test]
fn end_of_stream_before_line_feed_is_truncated() {
    let mut data = preamble();
    data.push(b':');
    data.extend_from_slice(&header(8, 0, 0, 0, 0));
    let failure = parse_chunk_data(&data).unwrap_err();
    assert_eq!(failure.error, DecodeError::TruncatedInput);
}

#[test]
fn short_preamble_is_truncated() {
    let failure = parse_chunk_data(&vec![0u8; 22]).unwrap_err();
    assert_eq!(failure.error, DecodeError::TruncatedInput);
    assert_eq!(failure.record_index, 0);
    let failure = parse_chunk_data(&Vec::new()).unwrap_err();
    assert_eq!(failure.error, DecodeError::TruncatedInput);
}

#[test]
fn truncated_header_and_payload_are_reported() {
    let mut data = preamble();
    data.push(b':');
    data.extend_from_slice(&[8, 0]);
    assert_eq!(parse_chunk_data(&data).unwrap_err().error, DecodeError::TruncatedInput);
    let mut data = preamble();
    data.push(b':');
    data.extend_from_slice(&header(12, 0, 0, 0, 8));
    data.extend_from_slice(&[1, 2, 3]);
    assert_eq!(parse_chunk_data(&data).unwrap_err().error, DecodeError::TruncatedInput);
}

#[test]
fn anything_but_the_start_marker_ends_the_list() {
    let chunk = parse_chunk_data(&preamble()).unwrap();
    assert!(chunk.records.is_empty());
    let mut data = preamble();
    data.extend_from_slice(b"garbage");
    assert!(parse_chunk_data(&data).unwrap().records.is_empty());
    let mut data = stream(&[header(8, 0, 0, 0, 0)]);
    data.extend_from_slice(b"+?rest");
    assert_eq!(parse_chunk_data(&data).unwrap().records.len(), 1);
}

#[test]
fn chained_streams_decode_first_then_second() {
    let mut runs = header(12, 1, 0, 0, 9);
    runs.extend_from_slice(&[0x03, 0x00, 0x05, 0x10]);
    let mut raw = header(10, 2, 0, 0, 8);
    raw.extend_from_slice(&[7, 7]);
    let a = stream(&[header(8, 0, 0, 0, 0), runs]);
    let b = stream(&[raw, header(8, 3, 0, 0, 0)]);
    let first = parse_chunk_data(&a).unwrap();
    let second = parse_chunk_data(&b).unwrap();
    let mut joined = a.clone();
    joined.push(b'+');
    joined.extend_from_slice(&b[23..]);
    let both = parse_chunk_data(&joined).unwrap();
    assert_eq!(both.records.len(), 4);
    assert_eq!(&both.records[..2], &first.records[..]);
    assert_eq!(&both.records[2..], &second.records[..]);
    assert_eq!(both.version, first.version);
}

#[test]
fn decode_runs_reports_where_it_stops() {
    let bytes = [0x01u8, 0x00, 0x02, 0x30, 0x09];
    let mut cur = ByteCursor::new(&bytes);
    let runs = decode_runs(&mut cur, 4).unwrap();
    assert_eq!(runs, vec![RunEntry { block_count: 1, rotation: 3, block_index: 2 }]);
    assert_eq!(cur.next_byte(), Some(0x09));
    let mut cur = ByteCursor::new(&bytes);
    assert_eq!(decode_runs(&mut cur, 0).unwrap(), Vec::new());
    let mut cur = ByteCursor::new(&bytes);
    assert_eq!(decode_runs(&mut cur, 3).unwrap_err(), DecodeError::InvalidRunLengthPayload);
    let mut cur = ByteCursor::new(&bytes);
    assert_eq!(decode_runs(&mut cur, 8).unwrap_err(), DecodeError::TruncatedInput);
    let mut cur = ByteCursor::new(&bytes);
    assert_eq!(decode_runs(&mut cur, -4).unwrap_err(), DecodeError::InvalidRunLengthPayload);
}
