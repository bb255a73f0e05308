use voxel_save::chunk::ChunkPayload;
use voxel_save::decode::{decode_section, DecodeMode, SectionContent};
use voxel_save::entry::{Entry, Value};
use voxel_save::error::DecodeError;
use voxel_save::section::{parse_section, Section};

#[test]
fn entries_mode_decodes_lines() {
    let s = Section { name: "head".to_string(), data: b"a=1\nb:xy\n+:z".to_vec() };
    let got = decode_section(&s, DecodeMode::Entries).unwrap();
    assert_eq!(
        got,
        SectionContent::Entries(vec![
            Entry { key: "a".to_string(), value: Value::Text("1".to_string()) },
            Entry {
                key: "b".to_string(),
                value: Value::BinaryList(vec![b"xy".to_vec(), b"z".to_vec()]),
            },
        ])
    );
}

#[test]
fn chunk_mode_failure_names_the_section() {
    let s = Section { name: "chunk".to_string(), data: vec![0u8; 5] };
    let failed = decode_section(&s, DecodeMode::Chunks).unwrap_err();
    assert_eq!(failed.section, "chunk");
    assert_eq!(failed.failure.error, DecodeError::TruncatedInput);
    assert_eq!(failed.failure.record_index, 0);
}

#[test]
fn file_to_chunk_records() {
    let mut file = b"[info]name=demo\n[chunk]".to_vec();
    file.push(0x01);
    file.extend_from_slice(b"0123456789abcdef");
    file.push(0x00);
    file.extend_from_slice(b"chunk");
    file.push(b':');
    file.extend_from_slice(&[10, 0, 0, 0, 0, 0, 0, 0, 1, 2, 3, 8, 0x41, 0x42]);
    file.push(b'\n');
    let sections = parse_section(&file).unwrap();
    assert_eq!(sections.len(), 2);
    assert_eq!(sections[1].name, "chunk");
    match decode_section(&sections[1], DecodeMode::Chunks).unwrap() {
        SectionContent::Chunks(chunk) => {
            assert_eq!(chunk.version, "0123456789abcdef");
            assert_eq!(chunk.marker, "chunk");
            assert_eq!(chunk.records.len(), 1);
            assert_eq!(chunk.records[0].payload, ChunkPayload::Raw(vec![0x41, 0x42]));
        }
        SectionContent::Entries(_) => unreachable!(),
    }
}
