//! The binary artifacts: header, sizes and label bitset.

use fraud_knn::format::{byte_to_lane, lane_to_byte, ErrorKind, HeaderError};
use fraud_knn::{
    dataset_byte_len, label_bit, labels_byte_len, read_references_header, write_references_header,
    LabelBitsetWriter, LABELS_BIT_PER_ENTRY, MAGIC, REFS_HEADER_LEN,
};

#[test]
fn header_roundtrip() {
    let mut buf = Vec::new();
    write_references_header(&mut buf, 3_000_000);
    assert_eq!(buf.len(), REFS_HEADER_LEN);
    assert_eq!(&buf[..8], &MAGIC);
    let n = read_references_header(&buf[..]).unwrap();
    assert_eq!(n, 3_000_000);
}

#[test]
fn dataset_byte_len_matches_full_size() {
    // 16 bytes of header and 3M times 16 bytes.
    assert_eq!(dataset_byte_len(3_000_000), 16 + 3_000_000 * 16);
    assert_eq!(dataset_byte_len(0), 16);
}

#[test]
fn labels_byte_len_rounds_up() {
    assert_eq!(labels_byte_len(3_000_000), 375_000);
    assert_eq!(labels_byte_len(0), 0);
    assert_eq!(labels_byte_len(1), 1);
    assert_eq!(labels_byte_len(8), 1);
    assert_eq!(labels_byte_len(9), 2);
}

#[test]
fn rejects_bad_magic() {
    let bad = [0_u8; 16];
    let err = read_references_header(&bad[..]).unwrap_err();
    assert_eq!(err.kind(), ErrorKind::InvalidData);
}

#[test]
fn bitset_packs_little_endian() {
    // labels: F L F L F L L L F, so bits 1 0 1 0 1 0 0 0 1
    let labels = [true, false, true, false, true, false, false, false, true];
    let mut writer = LabelBitsetWriter::new(Vec::new());
    for &l in &labels {
        writer.push(l);
    }
    let bytes = writer.finish();
    assert_eq!(bytes[0], 0b0001_0101);
    assert_eq!(bytes[1], 0b0000_0001);

    for (i, &expected) in labels.iter().enumerate() {
        assert_eq!(label_bit(&bytes, i), expected, "bit {i}");
    }
}

#[test]
fn bitset_full_byte_then_finish_is_idempotent() {
    let mut writer = LabelBitsetWriter::new(Vec::new());
    for _ in 0..8 {
        writer.push(true);
    }
    let bytes = writer.finish();
    // One full byte, and no partial one after it.
    assert_eq!(bytes.len(), 1);
    assert_eq!(bytes[0], 0xFF);
}

#[test]
fn header_bytes_are_exact() {
    let mut buf = vec![7_u8];
    write_references_header(&mut buf, 0x0102_0304_0506_0708);
    let mut expected = vec![7_u8];
    expected.extend_from_slice(b"RINHA26\x01");
    expected.extend_from_slice(&[8, 7, 6, 5, 4, 3, 2, 1]);
    assert_eq!(buf, expected);
}

#[test]
fn header_read_ignores_what_follows() {
    let mut buf = Vec::new();
    write_references_header(&mut buf, u64::MAX);
    buf.extend_from_slice(&[1, 2, 3]);
    assert_eq!(read_references_header(&buf).unwrap(), u64::MAX);
}

#[test]
fn short_header_is_truncated() {
    let mut buf = Vec::new();
    write_references_header(&mut buf, 5);
    for len in 0..16 {
        let err = read_references_header(&buf[..len]).unwrap_err();
        assert!(matches!(err, HeaderError::Truncated), "length {len}");
        assert_eq!(err.kind(), ErrorKind::UnexpectedEof);
    }
}

#[test]
fn wrong_magic_wins_over_missing_count() {
    let err = read_references_header(b"RINHA26\x02").unwrap_err();
    match err {
        HeaderError::BadMagic(magic) => assert_eq!(&magic, b"RINHA26\x02"),
        HeaderError::Truncated => panic!("the magic is complete"),
    }
}

#[test]
fn bitset_appends_to_its_buffer() {
    let mut writer = LabelBitsetWriter::new(vec![0xAB]);
    writer.push(false);
    writer.push(true);
    assert_eq!(writer.finish(), vec![0xAB, 0b10]);
}

#[test]
fn bitset_spare_bits_are_zero() {
    for n in 0..40_usize {
        let mut writer = LabelBitsetWriter::new(Vec::new());
        for _ in 0..n {
            writer.push(true);
        }
        let bytes = writer.finish();
        assert_eq!(bytes.len(), labels_byte_len(n));
        for i in 0..8 * bytes.len() {
            assert_eq!(label_bit(&bytes, i), i < n, "bit {i} of {n}");
        }
    }
}

#[test]
fn lanes_survive_storage() {
    for q in i8::MIN..=i8::MAX {
        assert_eq!(lane_to_byte(q), q as u8);
        assert_eq!(byte_to_lane(q as u8), q);
    }
    assert_eq!(LABELS_BIT_PER_ENTRY, 1);
}

#[test]
fn every_eighth_label_completes_a_byte() {
    let labels = [true, true, false, true, false, false, true, false, true, false, true];
    for k in 0..=labels.len() {
        let mut writer = LabelBitsetWriter::new(vec![0x55]);
        for &l in &labels[..k] {
            writer.push(l);
        }
        let bytes = writer.finish();
        // Full bytes are final: later labels do not change them.
        assert_eq!(bytes.len(), 1 + k.div_ceil(8));
        assert_eq!(bytes[0], 0x55);
        if k >= 8 {
            assert_eq!(bytes[1], 0b0100_1011);
        }
        if k == 8 {
            assert_eq!(bytes.len(), 2);
        }
    }
}
