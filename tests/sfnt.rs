use font::cursor::ByteCursor;
use font::sfnt::{
    array_from_file, calc_table_checksum, FromFile, FromFileErr, NameEncoding, NameRecord,
    NameTable, SFNTVer, Table, Tag, TranslateError, DSIGTable, OTTF,
};

fn u16_be(v: u16) -> [u8; 2] {
    v.to_be_bytes()
}

fn u32_be(v: u32) -> [u8; 4] {
    v.to_be_bytes()
}

/// A name table with one record whose string is "Hi" in UTF-16.
fn name_table_bytes() -> Vec<u8> {
    let mut b = Vec::new();
    b.extend_from_slice(&u16_be(0));
    b.extend_from_slice(&u16_be(1));
    b.extend_from_slice(&u16_be(18));
    for v in [3u16, 1, 0x409, 1, 4, 0] {
        b.extend_from_slice(&u16_be(v));
    }
    b.extend_from_slice(&[0x00, b'H', 0x00, b'i']);
    b
}

/// A font with a `name` table and a `head` record, both after the directory.
fn font_bytes() -> Vec<u8> {
    let name = name_table_bytes();
    let mut b = Vec::new();
    b.extend_from_slice(&u32_be(0x00010000));
    b.extend_from_slice(&u16_be(2));
    b.extend_from_slice(&u16_be(32));
    b.extend_from_slice(&u16_be(1));
    b.extend_from_slice(&u16_be(0));
    b.extend_from_slice(b"name");
    b.extend_from_slice(&u32_be(0));
    b.extend_from_slice(&u32_be(44));
    b.extend_from_slice(&u32_be(name.len() as u32));
    b.extend_from_slice(b"head");
    b.extend_from_slice(&u32_be(0));
    b.extend_from_slice(&u32_be(44));
    b.extend_from_slice(&u32_be(0));
    b.extend_from_slice(&name);
    b
}

#[test]
fn reads_big_endian_integers() {
    let mut f = ByteCursor::new(vec![0x12, 0x34, 0x56, 0x78, 0x9A]);
    assert_eq!(u16::from_file(&mut f).unwrap(), 0x1234);
    assert_eq!(f.position(), 2);
    let mut f = ByteCursor::new(vec![0x12, 0x34, 0x56, 0x78, 0x9A]);
    assert_eq!(u32::from_file(&mut f).unwrap(), 0x12345678);
    assert_eq!(u8::from_file(&mut f).unwrap(), 0x9A);
    assert!(matches!(u8::from_file(&mut f), Err(FromFileErr::EOF)));
    let mut f = ByteCursor::new(vec![0x12, 0x34, 0x56]);
    assert!(matches!(u32::from_file(&mut f), Err(FromFileErr::EOF)));
}

#[test]
fn decodes_tags() {
    let mut f = ByteCursor::new(vec![0x6E, 0x61, 0x6D, 0x65]);
    let t = Tag::from_file(&mut f).unwrap();
    assert_eq!(t.data, "name");
    assert!(t.is("name"));
    assert!(!t.is("DSIG"));
    let mut f = ByteCursor::new(vec![0x00, 0x61, 0x6D, 0x65]);
    assert!(matches!(Tag::from_file(&mut f), Err(FromFileErr::InvalidData(()))));
    let mut f = ByteCursor::new(vec![0x6E, 0x61, 0x7F, 0x65]);
    assert!(matches!(Tag::from_file(&mut f), Err(FromFileErr::InvalidData(()))));
    let mut f = ByteCursor::new(vec![0x6E, 0x61]);
    assert!(matches!(Tag::from_file(&mut f), Err(FromFileErr::EOF)));
}

#[test]
fn checksum_of_words() {
    let table = [0x00u8, 0x01, 0x00, 0x02];
    let word = |i: usize| u32::from_be_bytes([table[4 * i], table[4 * i + 1], table[4 * i + 2], table[4 * i + 3]]);
    assert_eq!(calc_table_checksum(word, 4), 0x00010002);
    let short = [0x00u8, 0x01, 0x00];
    let padded = |i: usize| {
        let mut w = [0u8; 4];
        for k in 0..4 {
            if 4 * i + k < short.len() {
                w[k] = short[4 * i + k];
            }
        }
        u32::from_be_bytes(w)
    };
    assert_eq!(calc_table_checksum(padded, 3), 0x00010000);
    let words = [0xFFFF_FFFFu32, 0x0000_0002];
    assert_eq!(calc_table_checksum(|i: usize| words[i], 8), 1);
    assert_eq!(calc_table_checksum(|_: usize| 7, 0), 0);
}

#[test]
fn sfnt_versions() {
    assert_eq!(SFNTVer::from_u32(0x00010000), SFNTVer::TrueType);
    assert_eq!(SFNTVer::from_u32(0x4F54544F), SFNTVer::CFF);
    assert_eq!(SFNTVer::from_u32(7), SFNTVer::Unknown(7));
}

#[test]
fn decodes_table_directory() {
    let mut f = ByteCursor::new(font_bytes());
    let font = OTTF::from_file(&mut f).unwrap();
    let dir = &font.table_directory;
    assert_eq!(dir.sfnt_version, SFNTVer::TrueType);
    assert_eq!(dir.num_tables, 2);
    assert_eq!(dir.search_range, 32);
    assert_eq!(dir.entry_selector, 1);
    assert_eq!(dir.range_shift, 0);
    assert_eq!(dir.table_records.len(), 2);
    assert_eq!(dir.table_records[0].table_tag.data, "name");
    assert_eq!(dir.table_records[0].offset, 44);
    assert_eq!(dir.table_records[1].table_tag.data, "head");
    assert_eq!(f.position(), 44);
}

#[test]
fn truncated_directory_is_eof() {
    let mut bytes = font_bytes();
    bytes.truncate(30);
    let mut f = ByteCursor::new(bytes);
    assert!(matches!(OTTF::from_file(&mut f), Err(FromFileErr::EOF)));
}

#[test]
fn get_table_is_cached() {
    let bytes = font_bytes();
    let mut f = ByteCursor::new(bytes.clone());
    let mut font = OTTF::from_file(&mut f).unwrap();
    f.seek_to(3).unwrap();
    let first = format!("{:?}", font.table_directory.table_records[0].get_table(&mut f));
    assert_eq!(f.position(), 3);
    f.seek_to(50).unwrap();
    let second = format!("{:?}", font.table_directory.table_records[0].get_table(&mut f));
    assert_eq!(f.position(), 50);
    assert_eq!(first, second);
    match font.table_directory.table_records[0].get_table(&mut f) {
        Ok(Table::Name(t)) => {
            assert_eq!(t.count, 1);
            assert_eq!(t.storage_offset, 18);
            assert_eq!(t.storage_absolute(), 62);
            assert_eq!(t.name_records[0].platform_id, 3);
            assert_eq!(t.name_records[0].language_id, 0x409);
            assert!(t.lang_tag_count.is_none());
        }
        other => panic!("unexpected {:?}", other),
    }
}

#[test]
fn unsupported_table() {
    let mut f = ByteCursor::new(font_bytes());
    let mut font = OTTF::from_file(&mut f).unwrap();
    match font.table_directory.table_records[1].get_table(&mut f) {
        Err(FromFileErr::Other(b)) => assert!(b.is_empty()),
        other => panic!("unexpected {:?}", other),
    }
    assert_eq!(f.position(), 44);
}

#[test]
fn table_past_end_is_eof() {
    let mut bytes = font_bytes();
    bytes[12 + 8..12 + 12].copy_from_slice(&u32_be(1000));
    let mut f = ByteCursor::new(bytes);
    let mut font = OTTF::from_file(&mut f).unwrap();
    assert!(matches!(
        font.table_directory.table_records[0].get_table(&mut f),
        Err(FromFileErr::EOF)
    ));
    assert_eq!(f.position(), 44);
}

#[test]
fn truncated_name_table_is_eof() {
    let mut bytes = font_bytes();
    bytes.truncate(44 + 10);
    let mut f = ByteCursor::new(bytes);
    let mut font = OTTF::from_file(&mut f).unwrap();
    assert!(matches!(
        font.table_directory.table_records[0].get_table(&mut f),
        Err(FromFileErr::EOF)
    ));
}

#[test]
fn name_strings() {
    let mut f = ByteCursor::new(font_bytes());
    let mut font = OTTF::from_file(&mut f).unwrap();
    let table = match font.table_directory.table_records[0].get_table(&mut f) {
        Ok(Table::Name(t)) => t.clone(),
        other => panic!("unexpected {:?}", other),
    };
    f.seek_to(7).unwrap();
    let record = table.name_records[0];
    let raw = record.get_string(&mut f, &table).unwrap();
    assert_eq!(raw, vec![0x00, b'H', 0x00, b'i']);
    assert_eq!(f.position(), 7);
    assert_eq!(record.translate_string(raw).unwrap(), "Hi");
    let far = NameRecord { string_offset: 2, length: 4, ..record };
    assert!(matches!(far.get_string(&mut f, &table), Err(FromFileErr::EOF)));
    assert_eq!(f.position(), 7);
}

#[test]
fn name_table_version_one() {
    let mut b = Vec::new();
    b.extend_from_slice(&u16_be(1));
    b.extend_from_slice(&u16_be(1));
    b.extend_from_slice(&u16_be(24));
    for v in [1u16, 0, 0, 4, 2, 0] {
        b.extend_from_slice(&u16_be(v));
    }
    b.extend_from_slice(&u16_be(1));
    b.extend_from_slice(&u16_be(2));
    b.extend_from_slice(&u16_be(2));
    b.extend_from_slice(b"Hien");
    let mut f = ByteCursor::new(b);
    let t = NameTable::from_file(&mut f).unwrap();
    assert_eq!(t.version, 1);
    assert_eq!(t.lang_tag_count, Some(1));
    let langs = t.lang_tag_record.as_ref().unwrap();
    assert_eq!(langs.len(), 1);
    assert_eq!(langs[0].length, 2);
    assert_eq!(langs[0].lang_tag_offset, 2);
    let raw = t.name_records[0].get_string(&mut f, &t).unwrap();
    assert_eq!(t.name_records[0].translate_string(raw).unwrap(), "Hi");
}

#[test]
fn decodes_dsig_table() {
    let mut b = Vec::new();
    b.extend_from_slice(&u32_be(1));
    b.extend_from_slice(&u16_be(1));
    b.extend_from_slice(&u16_be(1));
    b.extend_from_slice(&u32_be(1));
    b.extend_from_slice(&u32_be(16));
    b.extend_from_slice(&u32_be(20));
    let mut f = ByteCursor::new(b.clone());
    let t = DSIGTable::from_file(&mut f).unwrap();
    assert_eq!(t.version, 1);
    assert_eq!(t.flags, 1);
    assert_eq!(t.signature_records.len(), 1);
    assert_eq!(t.signature_records[0].length, 16);
    assert_eq!(t.signature_records[0].signature_block_offset, 20);
    b.truncate(18);
    let mut f = ByteCursor::new(b);
    assert!(matches!(DSIGTable::from_file(&mut f), Err(FromFileErr::EOF)));
}

#[test]
fn arrays_of_values() {
    let mut f = ByteCursor::new(vec![0, 1, 0, 2, 0, 3]);
    let v: Vec<u16> = array_from_file(&mut f, 3).unwrap();
    assert_eq!(v, vec![1, 2, 3]);
    let mut f = ByteCursor::new(vec![0, 1, 0]);
    assert!(matches!(array_from_file::<u16, (), ()>(&mut f, 2), Err(FromFileErr::EOF)));
}

fn record(platform_id: u16, encoding_id: u16) -> NameRecord {
    NameRecord { platform_id, encoding_id, language_id: 0, name_id: 1, length: 0, string_offset: 0 }
}

#[test]
fn translate_string_encodings() {
    assert_eq!(record(3, 1).translate_string(vec![0x00, 0x41, 0x20, 0xAC]).unwrap(), "A€");
    assert_eq!(record(0, 3).translate_string(vec![0x00, 0x41]).unwrap(), "A");
    assert_eq!(record(0, 4).translate_string(vec![0xD8, 0x3D, 0xDE, 0x00]).unwrap(), "😀");
    assert_eq!(record(1, 0).translate_string(vec![0x41, 0x8E]).unwrap(), "Aé");
    assert_eq!(record(3, 10).translate_string("Zoë".as_bytes().to_vec()).unwrap(), "Zoë");
    assert_eq!(record(3, 10).encoding(), Ok(NameEncoding::Utf8));
}

#[test]
fn translate_string_errors() {
    assert_eq!(
        record(0, 1).translate_string(vec![]),
        Err(TranslateError::Unimplemented { platform_id: 0, encoding_id: 1 })
    );
    assert_eq!(
        record(1, 32).translate_string(vec![]),
        Err(TranslateError::Unimplemented { platform_id: 1, encoding_id: 32 })
    );
    assert_eq!(
        record(3, 2).translate_string(vec![]),
        Err(TranslateError::Unimplemented { platform_id: 3, encoding_id: 2 })
    );
    assert_eq!(
        record(0, 5).translate_string(vec![]),
        Err(TranslateError::InvalidEncodingId { platform_id: 0, encoding_id: 5 })
    );
    assert_eq!(
        record(1, 33).translate_string(vec![]),
        Err(TranslateError::InvalidEncodingId { platform_id: 1, encoding_id: 33 })
    );
    assert_eq!(
        record(3, 11).translate_string(vec![]),
        Err(TranslateError::InvalidEncodingId { platform_id: 3, encoding_id: 11 })
    );
    assert_eq!(record(2, 0).translate_string(vec![]), Err(TranslateError::InvalidPlatformId(2)));
    assert_eq!(
        record(3, 1).translate_string(vec![0xD8, 0x00]),
        Err(TranslateError::InvalidString)
    );
    assert_eq!(record(3, 10).translate_string(vec![0xFF]), Err(TranslateError::InvalidString));
}
