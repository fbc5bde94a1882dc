//! The envelope of Biome's records.

use peach::parsers::biome::segb::{
    detect_version, read_v2_records, trailer_times, EntryState, RecordError, SegbError, SegbRecord,
    SegbVersion,
};
use peach::time::Timestamp;

const MAGIC: &[u8; 4] = b"SEGB";

fn build_segb2(entries: &[(&[u8], i32)]) -> Vec<u8> {
    let mut data_area = Vec::new();
    let mut trailer_entries = Vec::new();
    for (payload, state_raw) in entries {
        let crc = crc32fast::hash(payload);
        data_area.extend_from_slice(&crc.to_le_bytes());
        data_area.extend_from_slice(&0i32.to_le_bytes());
        data_area.extend_from_slice(payload);
        let end_offset = data_area.len() as i32;
        trailer_entries.push((end_offset, *state_raw));
        let remainder = end_offset.rem_euclid(4);
        if remainder != 0 {
            data_area.extend(vec![0u8; (4 - remainder) as usize]);
        }
    }

    let mut out = Vec::new();
    out.extend_from_slice(MAGIC);
    out.extend_from_slice(&(trailer_entries.len() as i32).to_le_bytes());
    out.extend_from_slice(&0f64.to_le_bytes());
    out.extend_from_slice(&[0u8; 16]);
    out.extend_from_slice(&data_area);
    for (end_offset, state_raw) in trailer_entries {
        out.extend_from_slice(&end_offset.to_le_bytes());
        out.extend_from_slice(&state_raw.to_le_bytes());
        out.extend_from_slice(&0f64.to_le_bytes());
    }
    out
}

fn read(bytes: &[u8]) -> Result<Vec<Result<SegbRecord, RecordError>>, SegbError> {
    let times = trailer_times(bytes)?
        .iter()
        .map(|_| Ok(Timestamp { seconds: 978_307_200, nanos: 0 }))
        .collect();
    read_v2_records(bytes, &times)
}

#[test]
fn detect_version_recognizes_v2_signature_at_start() {
    let bytes = build_segb2(&[(b"x", 1)]);
    assert_eq!(detect_version(&bytes).unwrap(), SegbVersion::V2);
}

#[test]
fn detect_version_recognizes_v1_signature_at_offset_52() {
    let mut header = vec![0u8; 56];
    header[52..56].copy_from_slice(MAGIC);
    assert_eq!(detect_version(&header).unwrap(), SegbVersion::V1);
}

#[test]
fn detect_version_rejects_neither_signature() {
    let bytes = vec![0u8; 64];
    assert!(detect_version(&bytes).is_err());
}

#[test]
fn well_formed_file_parses_normally() {
    let bytes = build_segb2(&[(b"first", 1), (b"second-entry", 1)]);

    let records = read(&bytes).unwrap();

    assert_eq!(records.len(), 2);
    assert_eq!(records[0].as_ref().unwrap().payload, b"first");
    assert_eq!(records[1].as_ref().unwrap().payload, b"second-entry");
    assert!(records.iter().all(|r| r.as_ref().unwrap().crc_valid));
    assert_eq!(records[0].as_ref().unwrap().record_offset, 32);
    assert_eq!(records[1].as_ref().unwrap().record_offset, 48);
}

#[test]
fn invalid_trailer_state_is_skipped_not_an_error() {
    let bytes = build_segb2(&[(b"hello world!", 1), (b"junk", 99)]);

    let records = read(&bytes).unwrap();

    assert_eq!(records.len(), 1);
    assert_eq!(records[0].as_ref().unwrap().payload, b"hello world!");
}

#[test]
fn duplicate_end_offset_reuses_previous_entrys_data() {
    let payload: &[u8] = b"shared-entry-data";
    let crc = crc32fast::hash(payload);
    let mut entry_bytes = Vec::new();
    entry_bytes.extend_from_slice(&crc.to_le_bytes());
    entry_bytes.extend_from_slice(&0i32.to_le_bytes());
    entry_bytes.extend_from_slice(payload);
    let end_offset = entry_bytes.len() as i32;
    let remainder = end_offset.rem_euclid(4);
    if remainder != 0 {
        entry_bytes.extend(vec![0u8; (4 - remainder) as usize]);
    }

    let mut bytes = Vec::new();
    bytes.extend_from_slice(MAGIC);
    bytes.extend_from_slice(&2i32.to_le_bytes());
    bytes.extend_from_slice(&0f64.to_le_bytes());
    bytes.extend_from_slice(&[0u8; 16]);
    bytes.extend_from_slice(&entry_bytes);
    bytes.extend_from_slice(&end_offset.to_le_bytes());
    bytes.extend_from_slice(&1i32.to_le_bytes()); // Written
    bytes.extend_from_slice(&0f64.to_le_bytes());
    bytes.extend_from_slice(&end_offset.to_le_bytes());
    bytes.extend_from_slice(&3i32.to_le_bytes()); // Deleted
    bytes.extend_from_slice(&0f64.to_le_bytes());

    let records = read(&bytes).unwrap();

    assert_eq!(records.len(), 2);
    assert_eq!(records[0].as_ref().unwrap().payload, payload);
    assert_eq!(records[1].as_ref().unwrap().payload, payload);
    assert_eq!(records[0].as_ref().unwrap().state, EntryState::Written);
    assert_eq!(records[1].as_ref().unwrap().state, EntryState::Deleted);
}

#[test]
fn stale_trailer_entry_with_too_small_length_is_skipped() {
    let payload: &[u8] = b"first-real-entry";
    let mut entry_bytes = Vec::new();
    entry_bytes.extend_from_slice(&crc32fast::hash(payload).to_le_bytes());
    entry_bytes.extend_from_slice(&0i32.to_le_bytes());
    entry_bytes.extend_from_slice(payload);
    assert_eq!(entry_bytes.len(), 24); // 8-byte header + 16-byte payload, already 4-aligned

    let mut bytes = Vec::new();
    bytes.extend_from_slice(MAGIC);
    bytes.extend_from_slice(&2i32.to_le_bytes());
    bytes.extend_from_slice(&0f64.to_le_bytes());
    bytes.extend_from_slice(&[0u8; 16]);
    bytes.extend_from_slice(&entry_bytes);
    // The first entry ends at offset 24; a slot at offset 27 would have
    // length 27 - 56 + 32 = 3, below the 8 bytes of a header.
    bytes.extend_from_slice(&24i32.to_le_bytes());
    bytes.extend_from_slice(&1i32.to_le_bytes());
    bytes.extend_from_slice(&0f64.to_le_bytes());
    bytes.extend_from_slice(&27i32.to_le_bytes());
    bytes.extend_from_slice(&1i32.to_le_bytes());
    bytes.extend_from_slice(&0f64.to_le_bytes());

    let records = read(&bytes).unwrap();

    assert_eq!(records.len(), 1);
    assert_eq!(records[0].as_ref().unwrap().payload, payload);
}

#[test]
fn crc_mismatch_is_surfaced_not_treated_as_a_parse_failure() {
    let payload: &[u8] = b"tampered";
    let mut entry_bytes = Vec::new();
    // Deliberately wrong CRC.
    entry_bytes.extend_from_slice(&0xdead_beefu32.to_le_bytes());
    entry_bytes.extend_from_slice(&0i32.to_le_bytes());
    entry_bytes.extend_from_slice(payload);
    let end_offset = entry_bytes.len() as i32;

    let mut bytes = Vec::new();
    bytes.extend_from_slice(MAGIC);
    bytes.extend_from_slice(&1i32.to_le_bytes());
    bytes.extend_from_slice(&0f64.to_le_bytes());
    bytes.extend_from_slice(&[0u8; 16]);
    bytes.extend_from_slice(&entry_bytes);
    bytes.extend_from_slice(&end_offset.to_le_bytes());
    bytes.extend_from_slice(&1i32.to_le_bytes());
    bytes.extend_from_slice(&0f64.to_le_bytes());

    let records = read(&bytes).unwrap();

    assert_eq!(records.len(), 1);
    let record = records[0].as_ref().unwrap();
    assert_eq!(record.payload, payload);
    assert!(!record.crc_valid);
}

#[test]
fn entries_count_implying_a_too_large_trailer_is_a_file_level_error() {
    let mut bytes = vec![0u8; 32];
    bytes[0..4].copy_from_slice(MAGIC);
    bytes[4..8].copy_from_slice(&1000i32.to_le_bytes());

    assert!(read(&bytes).is_err());
    assert_eq!(
        read_v2_records(&bytes, &Vec::new()).unwrap_err(),
        SegbError::TrailerTooLarge { count: 1000 }
    );
}

#[test]
fn every_file_level_problem_has_its_error() {
    let problem = |bytes: &[u8]| read_v2_records(bytes, &Vec::new()).unwrap_err();
    assert_eq!(problem(b"SEGB"), SegbError::TooShort);
    let mut bytes = vec![0u8; 32];
    bytes[0..4].copy_from_slice(b"SEGX");
    assert_eq!(problem(&bytes), SegbError::BadMagic { found: (b'S', b'E', b'G', b'X') });
    bytes[0..4].copy_from_slice(MAGIC);
    bytes[4..8].copy_from_slice(&(-1i32).to_le_bytes());
    assert_eq!(problem(&bytes), SegbError::NegativeCount { count: -1 });
    bytes[4..8].copy_from_slice(&1i32.to_le_bytes());
    assert_eq!(problem(&bytes), SegbError::TrailerOverlapsHeader);
    bytes[4..8].copy_from_slice(&0i32.to_le_bytes());
    assert!(read_v2_records(&bytes, &Vec::new()).unwrap().is_empty());
    assert_eq!(detect_version(b"zzz").unwrap_err(), SegbError::NotSegb);
    assert!(SegbError::NegativeCount { count: -1 }.message().contains("-1"));
}

#[test]
fn times_are_those_of_the_trailer() {
    let mut bytes = build_segb2(&[(b"a", 1), (b"b", 1)]);
    let at = bytes.len() - 8;
    bytes[at..].copy_from_slice(&2.5f64.to_le_bytes());
    assert_eq!(trailer_times(&bytes).unwrap(), vec![0, 2.5f64.to_bits()]);
}

#[test]
fn a_record_past_the_end_is_named_by_its_offset() {
    let mut bytes = build_segb2(&[(b"a", 1)]);
    let at = bytes.len() - 16;
    bytes[at..at + 4].copy_from_slice(&500i32.to_le_bytes());
    let records = read(&bytes).unwrap();
    let err = records[0].as_ref().unwrap_err();
    assert!(matches!(err, RecordError::PastEnd { end_offset: 500 }));
    assert!(err.message().contains("500"));
    assert!(RecordError::BadTimestamp("why".to_string()).message().contains("why"));
}

#[test]
fn states_are_one_three_and_four() {
    assert_eq!(EntryState::from_raw(1), Some(EntryState::Written));
    assert_eq!(EntryState::from_raw(3), Some(EntryState::Deleted));
    assert_eq!(EntryState::from_raw(4), Some(EntryState::Unknown));
    assert_eq!(EntryState::from_raw(0), None);
    assert_eq!(EntryState::from_raw(2), None);
    assert_eq!(EntryState::Unknown.as_str(), "unknown");
}
