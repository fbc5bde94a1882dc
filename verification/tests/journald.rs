//! Journal files.

use peach::json::Json;
use peach::parsers::journald::{
    align8, parse_bytes, parse_header, read_object_header, split_field, JournaldFileParser,
};
use peach::time::Timestamp;

const SIGNATURE: [u8; 8] = *b"LPKSHHRH";
const OBJECT_HEADER_SIZE: u64 = 16;
const DATA_OBJECT_FIXED_SIZE: u64 = 48;
const DATA_OBJECT_COMPACT_EXTRA: u64 = 8;
const ENTRY_FIXED_SIZE: u64 = 48;
const ENTRY_ITEM_SIZE: u64 = 16;
const ENTRY_ITEM_SIZE_COMPACT: u64 = 4;
const OBJECT_TYPE_DATA: u8 = 1;
const OBJECT_TYPE_ENTRY: u8 = 3;
const OBJECT_COMPRESSED_XZ: u8 = 1;
const OBJECT_COMPRESSED_LZ4: u8 = 2;
const INCOMPATIBLE_COMPACT: u32 = 16;

/// A journal file, made object by object.
struct FakeJournalBuilder {
    bytes: Vec<u8>,
    compact: bool,
}

impl FakeJournalBuilder {
    fn new() -> Self {
        let mut bytes = vec![0u8; 208];
        bytes[0..8].copy_from_slice(&SIGNATURE);
        bytes[88..96].copy_from_slice(&208u64.to_le_bytes());
        Self {
            bytes,
            compact: false,
        }
    }

    fn set_incompatible_flags(&mut self, flags: u32) -> &mut Self {
        self.bytes[12..16].copy_from_slice(&flags.to_le_bytes());
        self
    }

    fn compact(&mut self) -> &mut Self {
        self.compact = true;
        self.set_incompatible_flags(INCOMPATIBLE_COMPACT)
    }

    fn push_data_object(&mut self, field: &str) -> u64 {
        self.push_data_object_raw(field.as_bytes(), 0)
    }

    fn push_data_object_lz4(&mut self, field: &str) -> u64 {
        let uncompressed = field.as_bytes();
        let compressed_block = lz4_flex::block::compress(uncompressed);
        let mut payload = Vec::with_capacity(8 + compressed_block.len());
        payload.extend_from_slice(&(uncompressed.len() as u64).to_le_bytes());
        payload.extend_from_slice(&compressed_block);
        self.push_data_object_raw(&payload, OBJECT_COMPRESSED_LZ4)
    }

    fn push_data_object_raw(&mut self, payload: &[u8], flags: u8) -> u64 {
        let offset = self.bytes.len() as u64;
        let compact_extra = if self.compact {
            DATA_OBJECT_COMPACT_EXTRA
        } else {
            0
        };
        let size =
            OBJECT_HEADER_SIZE + DATA_OBJECT_FIXED_SIZE + compact_extra + payload.len() as u64;
        self.bytes.push(OBJECT_TYPE_DATA);
        self.bytes.push(flags);
        self.bytes.extend_from_slice(&[0u8; 6]);
        self.bytes.extend_from_slice(&size.to_le_bytes());
        self.bytes
            .extend_from_slice(&[0u8; DATA_OBJECT_FIXED_SIZE as usize]);
        if self.compact {
            self.bytes
                .extend_from_slice(&[0u8; DATA_OBJECT_COMPACT_EXTRA as usize]);
        }
        self.bytes.extend_from_slice(payload);
        self.pad_align8();
        offset
    }

    fn push_entry_object(&mut self, seqnum: u64, realtime: u64, item_offsets: &[u64]) -> u64 {
        let offset = self.bytes.len() as u64;
        let item_size = if self.compact {
            ENTRY_ITEM_SIZE_COMPACT
        } else {
            ENTRY_ITEM_SIZE
        };
        let size =
            OBJECT_HEADER_SIZE + ENTRY_FIXED_SIZE + item_offsets.len() as u64 * item_size;
        self.bytes.push(OBJECT_TYPE_ENTRY);
        self.bytes.push(0);
        self.bytes.extend_from_slice(&[0u8; 6]);
        self.bytes.extend_from_slice(&size.to_le_bytes());
        self.bytes.extend_from_slice(&seqnum.to_le_bytes());
        self.bytes.extend_from_slice(&realtime.to_le_bytes());
        self.bytes.extend_from_slice(&0u64.to_le_bytes()); // monotonic
        self.bytes.extend_from_slice(&[0u8; 16]); // boot_id
        self.bytes.extend_from_slice(&0u64.to_le_bytes()); // xor_hash
        for &item_offset in item_offsets {
            if self.compact {
                self.bytes
                    .extend_from_slice(&(item_offset as u32).to_le_bytes());
            } else {
                self.bytes.extend_from_slice(&item_offset.to_le_bytes());
                self.bytes.extend_from_slice(&0u64.to_le_bytes()); // hash, unused
            }
        }
        self.pad_align8();
        self.bytes[136..144].copy_from_slice(&offset.to_le_bytes());
        offset
    }

    fn pad_align8(&mut self) {
        while self.bytes.len() % 8 != 0 {
            self.bytes.push(0);
        }
    }

    fn push_corrupt_object_header(&mut self) -> u64 {
        let offset = self.bytes.len() as u64;
        self.bytes.push(OBJECT_TYPE_ENTRY);
        self.bytes.push(0);
        self.bytes.extend_from_slice(&[0u8; 6]);
        self.bytes.extend_from_slice(&3u64.to_le_bytes());
        self.bytes[136..144].copy_from_slice(&offset.to_le_bytes());
        offset
    }

    fn finish(self) -> Vec<u8> {
        self.bytes
    }
}

#[test]
fn parses_a_single_uncompressed_entry_with_two_fields() {
    let mut builder = FakeJournalBuilder::new();
    let message_offset = builder.push_data_object("MESSAGE=hello world");
    let priority_offset = builder.push_data_object("PRIORITY=6");
    // 2024-01-01T00:00:00Z in microseconds since the epoch.
    builder.push_entry_object(1, 1_704_067_200_000_000, &[message_offset, priority_offset]);
    let bytes = builder.finish();

    let (records, _skipped) = parse_bytes(&bytes, false).unwrap();

    assert_eq!(records.len(), 1);
    assert_eq!(records[0].message.as_deref(), Some("hello world"));
    assert_eq!(records[0].level.as_deref(), Some("6"));
    assert_eq!(
        records[0].timestamp_utc,
        Timestamp { seconds: 1_704_067_200, nanos: 0 }
    );
    assert_eq!(
        records[0].fields.get("__SEQNUM").and_then(|v| v.as_text()).map(|s| s.as_str()),
        Some("1")
    );
}

#[test]
fn decompresses_lz4_field_values() {
    let mut builder = FakeJournalBuilder::new();
    let message_offset =
        builder.push_data_object_lz4("MESSAGE=this value was lz4-compressed on disk");
    builder.push_entry_object(1, 0, &[message_offset]);
    let bytes = builder.finish();

    let (records, _skipped) = parse_bytes(&bytes, false).unwrap();

    assert_eq!(
        records[0].message.as_deref(),
        Some("this value was lz4-compressed on disk")
    );
}

#[test]
fn xz_compressed_field_is_visible_but_marked_unsupported_not_dropped() {
    let mut builder = FakeJournalBuilder::new();
    let data_offset = builder.push_data_object_raw(b"whatever bytes", OBJECT_COMPRESSED_XZ);
    builder.push_entry_object(1, 0, &[data_offset]);
    let bytes = builder.finish();

    let (records, _skipped) = parse_bytes(&bytes, false).unwrap();

    let fields = match &records[0].fields {
        Json::Object(members) => members,
        _ => panic!("the fields are an object"),
    };
    let (key, value) = fields
        .iter()
        .find(|(k, _)| k.starts_with("_UNSUPPORTED_COMPRESSED_FIELD"))
        .expect("unsupported field should still be present, just marked");
    assert!(key.contains('@'));
    assert!(value.as_text().unwrap().contains("XZ"));
}

#[test]
fn parses_a_single_entry_in_compact_format() {
    let mut builder = FakeJournalBuilder::new();
    builder.compact();
    let message_offset = builder.push_data_object("MESSAGE=hello compact world");
    let priority_offset = builder.push_data_object("PRIORITY=6");
    builder.push_entry_object(1, 1_704_067_200_000_000, &[message_offset, priority_offset]);
    let bytes = builder.finish();

    let (records, _skipped) = parse_bytes(&bytes, false).unwrap();

    assert_eq!(records.len(), 1);
    assert_eq!(records[0].message.as_deref(), Some("hello compact world"));
    assert_eq!(records[0].level.as_deref(), Some("6"));
    assert_eq!(
        records[0].timestamp_utc,
        Timestamp { seconds: 1_704_067_200, nanos: 0 }
    );
}

#[test]
fn decompresses_lz4_field_values_in_compact_format() {
    let mut builder = FakeJournalBuilder::new();
    builder.compact();
    let message_offset =
        builder.push_data_object_lz4("MESSAGE=this value was lz4-compressed on disk");
    builder.push_entry_object(1, 0, &[message_offset]);
    let bytes = builder.finish();

    let (records, _skipped) = parse_bytes(&bytes, false).unwrap();

    assert_eq!(
        records[0].message.as_deref(),
        Some("this value was lz4-compressed on disk")
    );
}

#[test]
fn multiple_entries_are_returned_in_scan_order_in_compact_format() {
    let mut builder = FakeJournalBuilder::new();
    builder.compact();
    let first_offset = builder.push_data_object("MESSAGE=first");
    builder.push_entry_object(1, 100, &[first_offset]);
    let second_offset = builder.push_data_object("MESSAGE=second");
    builder.push_entry_object(2, 200, &[second_offset]);
    let bytes = builder.finish();

    let (records, _skipped) = parse_bytes(&bytes, false).unwrap();

    assert_eq!(records.len(), 2);
    assert_eq!(records[0].message.as_deref(), Some("first"));
    assert_eq!(records[1].message.as_deref(), Some("second"));
}

#[test]
fn unknown_incompatible_flag_is_rejected_rather_than_guessed_at() {
    let mut builder = FakeJournalBuilder::new();
    builder.set_incompatible_flags(1 << 30);
    let bytes = builder.finish();

    let result = parse_bytes(&bytes, false);

    assert!(result.is_err());
}

#[test]
fn bad_signature_is_rejected() {
    let bytes = vec![0u8; 208];

    let result = parse_bytes(&bytes, false);

    assert!(result.is_err());
    assert!(result.unwrap_err().contains("signature"));
}

#[test]
fn truncated_file_is_rejected_not_panicking() {
    let bytes = vec![0u8; 10];

    let result = parse_bytes(&bytes, false);

    assert!(result.is_err());
}

#[test]
fn empty_journal_with_no_entries_parses_to_an_empty_list() {
    let builder = FakeJournalBuilder::new();
    let bytes = builder.finish();

    let (records, _skipped) = parse_bytes(&bytes, false).unwrap();

    assert!(records.is_empty());
}

#[test]
fn object_claiming_to_extend_past_end_of_file_is_rejected() {
    let mut builder = FakeJournalBuilder::new();
    let offset = builder.bytes.len() as u64;
    builder.bytes.push(OBJECT_TYPE_ENTRY);
    builder.bytes.push(0);
    builder.bytes.extend_from_slice(&[0u8; 6]);
    // Claim a size far larger than the actual remaining file content.
    builder.bytes.extend_from_slice(&10_000u64.to_le_bytes());
    builder.bytes[136..144].copy_from_slice(&offset.to_le_bytes());
    let bytes = builder.finish();

    let result = parse_bytes(&bytes, false);

    assert!(result.is_err());
}

#[test]
fn multiple_entries_are_returned_in_scan_order() {
    let mut builder = FakeJournalBuilder::new();
    let first_offset = builder.push_data_object("MESSAGE=first");
    builder.push_entry_object(1, 100, &[first_offset]);
    let second_offset = builder.push_data_object("MESSAGE=second");
    builder.push_entry_object(2, 200, &[second_offset]);
    let bytes = builder.finish();

    let (records, _skipped) = parse_bytes(&bytes, false).unwrap();

    assert_eq!(records.len(), 2);
    assert_eq!(records[0].message.as_deref(), Some("first"));
    assert_eq!(records[1].message.as_deref(), Some("second"));
}

#[test]
fn skip_bad_records_false_still_hard_fails_on_a_corrupt_entry() {
    let mut builder = FakeJournalBuilder::new();
    let good_offset = builder.push_data_object("MESSAGE=first");
    builder.push_entry_object(1, 100, &[good_offset]);
    // References a wildly out-of-bounds DATA object offset — the ENTRY
    // object's own header is fine, only its item resolution fails.
    builder.push_entry_object(2, 200, &[999_999]);
    let bytes = builder.finish();

    let result = parse_bytes(&bytes, false);

    assert!(result.is_err());
}

#[test]
fn skip_bad_records_true_skips_a_corrupt_entry_and_keeps_the_rest() {
    let mut builder = FakeJournalBuilder::new();
    let first_offset = builder.push_data_object("MESSAGE=first");
    builder.push_entry_object(1, 100, &[first_offset]);
    builder.push_entry_object(2, 200, &[999_999]);
    let third_offset = builder.push_data_object("MESSAGE=third");
    builder.push_entry_object(3, 300, &[third_offset]);
    let bytes = builder.finish();

    let (records, skipped) = parse_bytes(&bytes, true).unwrap();

    assert_eq!(records.len(), 2);
    assert_eq!(records[0].message.as_deref(), Some("first"));
    assert_eq!(records[1].message.as_deref(), Some("third"));
    assert_eq!(skipped.len(), 1);
    assert!(skipped[0].location.contains("entry at offset"));
}

#[test]
fn skip_bad_records_false_still_hard_fails_on_a_corrupt_object_header() {
    let mut builder = FakeJournalBuilder::new();
    let good_offset = builder.push_data_object("MESSAGE=first");
    builder.push_entry_object(1, 100, &[good_offset]);
    builder.push_corrupt_object_header();
    let bytes = builder.finish();

    let result = parse_bytes(&bytes, false);

    assert!(result.is_err());
}

#[test]
fn skip_bad_records_true_keeps_entries_recovered_before_a_corrupt_header() {
    let mut builder = FakeJournalBuilder::new();
    let first_offset = builder.push_data_object("MESSAGE=first");
    builder.push_entry_object(1, 100, &[first_offset]);
    let second_offset = builder.push_data_object("MESSAGE=second");
    builder.push_entry_object(2, 200, &[second_offset]);
    builder.push_corrupt_object_header();
    let bytes = builder.finish();

    let (records, skipped) = parse_bytes(&bytes, true).unwrap();

    assert_eq!(
        records.len(),
        2,
        "both entries before the corruption survive"
    );
    assert_eq!(records[0].message.as_deref(), Some("first"));
    assert_eq!(records[1].message.as_deref(), Some("second"));
    assert_eq!(skipped.len(), 1);
    assert!(skipped[0].reason.contains("2 entries recovered"));
}

#[test]
fn sourcetype_is_journald() {
    assert_eq!(JournaldFileParser.sourcetype(), "journald");
}

#[test]
fn the_header_tells_where_objects_begin_and_end() {
    let mut builder = FakeJournalBuilder::new();
    builder.compact();
    let offset = builder.push_entry_object(1, 0, &[]);
    let bytes = builder.finish();
    let header = parse_header(&bytes).unwrap();
    assert_eq!(header.header_size, 208);
    assert_eq!(header.tail_object_offset, offset);
    assert!(header.compact);
    let object = read_object_header(&bytes, offset).unwrap();
    assert_eq!((object.object_type, object.flags, object.size), (3, 0, 64));
    assert!(read_object_header(&bytes, bytes.len() as u64).is_err());
    assert!(read_object_header(&bytes, u64::MAX).is_err());
}

#[test]
fn objects_begin_at_multiples_of_eight() {
    assert_eq!(align8(0), 0);
    assert_eq!(align8(1), 8);
    assert_eq!(align8(8), 8);
    assert_eq!(align8(u64::MAX - 7), u64::MAX - 7);
}

#[test]
fn a_field_is_split_at_its_first_equals_sign() {
    assert_eq!(split_field(b"A=b=c"), Ok(("A".to_string(), "b=c".to_string())));
    assert_eq!(split_field(b"A="), Ok(("A".to_string(), String::new())));
    assert_eq!(split_field(b"A=\xff"), Ok(("A".to_string(), "\u{FFFD}".to_string())));
    assert!(split_field(b"none").is_err());
}

#[test]
fn a_damaged_compressed_value_is_a_bad_entry() {
    let mut builder = FakeJournalBuilder::new();
    let short = builder.push_data_object_raw(b"abc", OBJECT_COMPRESSED_LZ4);
    builder.push_entry_object(1, 0, &[short]);
    let mut payload = 100u64.to_le_bytes().to_vec();
    payload.extend_from_slice(b"\xf0nonsense");
    let broken = builder.push_data_object_raw(&payload, OBJECT_COMPRESSED_LZ4);
    builder.push_entry_object(2, 0, &[broken]);
    let mut huge = u64::MAX.to_le_bytes().to_vec();
    huge.push(0);
    let too_large = builder.push_data_object_raw(&huge, OBJECT_COMPRESSED_LZ4);
    builder.push_entry_object(3, 0, &[too_large]);
    let bytes = builder.finish();
    let (records, skipped) = parse_bytes(&bytes, true).unwrap();
    assert_eq!((records.len(), skipped.len()), (0, 3));
    assert!(parse_bytes(&bytes, false).is_err());
}

#[test]
fn every_entry_is_read_or_passed_over() {
    let mut builder = FakeJournalBuilder::new();
    let data = builder.push_data_object("MESSAGE=x");
    let not_data = builder.push_entry_object(1, 5, &[data]);
    builder.push_entry_object(2, 6, &[not_data]);
    builder.push_entry_object(3, u64::MAX, &[data]);
    let bytes = builder.finish();
    let (records, skipped) = parse_bytes(&bytes, true).unwrap();
    assert_eq!(records.len() + skipped.len(), 3);
    assert_eq!(records.len(), 1);
    assert_eq!(records[0].timestamp_utc, Timestamp { seconds: 0, nanos: 5_000 });
    assert_eq!(records[0].raw, records[0].fields.to_text());
}
