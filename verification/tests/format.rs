use ciso::index::IndexTable;
use ciso::layout::CSOHeader;
use ciso::layout::Error;
use ciso::layout::IndexTableEntry;
use ciso::util;

fn sample_header() -> CSOHeader {
    CSOHeader {
        magic: 0x4F534943,
        header_size: 24,
        uncompressed_size: 0x1122334455667788,
        block_size: 2048,
        version: 2,
        alignment: 2,
        reserved0: 7,
        reserved1: 9,
    }
}

#[test]
fn header_serialize_exact_bytes() {
    let h = sample_header();
    let bytes = h.serialize();
    assert_eq!(
        bytes,
        vec![
            0x43, 0x49, 0x53, 0x4F, // magic "CISO"
            24, 0, 0, 0, // header size
            0x88, 0x77, 0x66, 0x55, 0x44, 0x33, 0x22, 0x11, // uncompressed size
            0, 8, 0, 0, // block size 2048
            2, 2, 7, 9, // version, alignment, reserved
        ]
    );
}

#[test]
fn header_round_trip() {
    let h = sample_header();
    let bytes = h.serialize();
    let parsed = CSOHeader::deserialize::<()>(bytes.as_slice()).unwrap();
    assert_eq!(parsed, h);
}

#[test]
fn header_new_defaults() {
    let h = CSOHeader::new();
    assert_eq!(h.magic, 0x4F534943);
    assert_eq!(h.header_size, 24);
    assert_eq!(h.block_size, 2048);
    assert_eq!(h.version, 2);
    assert_eq!(h.alignment, 2);
    assert_eq!(h.uncompressed_size, 0);
}

#[test]
fn header_index_table_len() {
    let mut h = CSOHeader::new();
    h.uncompressed_size = 10 * 1024 * 1024;
    assert_eq!(h.index_table_len(), 5121);
    h.uncompressed_size = 2048;
    assert_eq!(h.index_table_len(), 2);
    h.uncompressed_size = 0;
    assert_eq!(h.index_table_len(), 1);
}

#[test]
fn header_bad_magic_is_invalid_header() {
    let h = sample_header();
    let mut bytes = h.serialize();
    bytes[0] = 0;
    bytes[1] = 0;
    bytes[2] = 0;
    bytes[3] = 0;
    match CSOHeader::deserialize::<()>(bytes.as_slice()) {
        Err(Error::InvalidHeader) => {}
        _ => panic!("expected InvalidHeader"),
    }
}

#[test]
fn header_version_one_is_unsupported() {
    let h = sample_header();
    let mut bytes = h.serialize();
    bytes[20] = 1;
    match CSOHeader::deserialize::<()>(bytes.as_slice()) {
        Err(Error::UnsupportedVersion) => {}
        _ => panic!("expected UnsupportedVersion"),
    }
}

#[test]
fn header_bad_size_is_invalid_header() {
    let h = sample_header();
    let mut bytes = h.serialize();
    bytes[4] = 23;
    match CSOHeader::deserialize::<()>(bytes.as_slice()) {
        Err(Error::InvalidHeader) => {}
        _ => panic!("expected InvalidHeader"),
    }
}

#[test]
fn index_entry_round_trip() {
    for &(position, flag) in
        [(0u32, false), (0, true), (1, false), (0x7FFF_FFFF, true), (0x7FFF_FFFF, false), (12345, true)]
            .iter()
    {
        let e = IndexTableEntry::new(position, flag);
        let raw = e.pack();
        let back = IndexTableEntry::unpack(raw);
        assert_eq!(back.position, position);
        assert_eq!(back.compression_type, flag);
    }
}

#[test]
fn index_entry_pack_layout() {
    assert_eq!(IndexTableEntry::new(5, false).pack(), 5);
    assert_eq!(IndexTableEntry::new(5, true).pack(), 0x8000_0005);
    let e = IndexTableEntry::unpack(0xFFFF_FFFF);
    assert_eq!(e.position, 0x7FFF_FFFF);
    assert!(e.compression_type);
}

#[test]
fn index_table_round_trip() {
    let mut h = CSOHeader::new();
    h.uncompressed_size = 3 * 2048;
    let mut t = IndexTable::new(&h);
    assert_eq!(t.len(), 4);
    t.set(0, IndexTableEntry::new(10, false));
    t.set(1, IndexTableEntry::new(522, true));
    t.set(2, IndexTableEntry::new(1000, false));
    t.set(3, IndexTableEntry::new(1500, false));
    let bytes = t.serialize();
    assert_eq!(bytes.len(), 16);
    let back = IndexTable::deserialize(bytes);
    assert_eq!(back.len(), 4);
    assert_eq!(back.get(0), IndexTableEntry::new(10, false));
    assert_eq!(back.get(1), IndexTableEntry::new(522, true));
    assert_eq!(back.get(2), IndexTableEntry::new(1000, false));
    assert_eq!(back.get(3), IndexTableEntry::new(1500, false));
}

#[test]
fn index_table_deserialize_words() {
    let data = vec![0x01, 0x00, 0x00, 0x00, 0x02, 0x00, 0x00, 0x80];
    let t = IndexTable::deserialize(data);
    assert_eq!(t.len(), 2);
    assert_eq!(t.get(0), IndexTableEntry::new(1, false));
    assert_eq!(t.get(1), IndexTableEntry::new(2, true));
}

#[test]
fn util_round_trips() {
    let mut buf = vec![0xAAu8; 6];
    util::serialize_u32_le(0xDEADBEEF, &mut buf);
    assert_eq!(buf, vec![0xEF, 0xBE, 0xAD, 0xDE, 0xAA, 0xAA]);
    assert_eq!(util::deserialize_u32_le(&buf[0..4]), 0xDEADBEEF);

    let mut buf = vec![0xAAu8; 9];
    util::serialize_u64_le(0x0102030405060708, &mut buf);
    assert_eq!(buf, vec![8, 7, 6, 5, 4, 3, 2, 1, 0xAA]);
    assert_eq!(util::deserialize_u64_le(&buf[0..8]), 0x0102030405060708);
}
