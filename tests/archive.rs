use tara::{DecodeError, EncodeError, TaraArchive, TaraEntry};

const SAMPLE: [u8; 31] = [
    0, 0, 0, 2, //
    0, 5, 104, 101, 108, 108, 111, 0, 0, 0, 5, //
    0, 5, 119, 111, 114, 108, 100, 0, 0, 0, 0, //
    1, 2, 3, 4, 5,
];

#[test]
fn read() {
    let data = SAMPLE;
    let archive = TaraArchive::read(&data).unwrap();

    assert_eq!(archive.entries[0].name, "hello");
    assert_eq!(archive.entries[0].data, [1, 2, 3, 4, 5]);
    assert_eq!(archive.entries[1].name, "world");
    assert_eq!(archive.entries[1].data, []);
}

#[test]
fn write() {
    let mut archive = TaraArchive::new();
    archive.add_entry("hello".to_owned(), vec![1, 2, 3, 4, 5]);
    archive.add_entry("world".to_owned(), vec![]);

    let mut data = Vec::new();
    archive.write(&mut data).unwrap();

    assert_eq!(
        data,
        [
            0, 0, 0, 2, //
            0, 5, 104, 101, 108, 108, 111, 0, 0, 0, 5, //
            0, 5, 119, 111, 114, 108, 100, 0, 0, 0, 0, //
            1, 2, 3, 4, 5
        ]
    );
}

#[test]
fn read_sample_has_exactly_two_entries() {
    let archive = TaraArchive::read(&SAMPLE).unwrap();
    assert_eq!(archive.entries.len(), 2);
    assert_eq!(archive.entries[0], TaraEntry::new("hello".to_owned(), vec![1, 2, 3, 4, 5]));
    assert_eq!(archive.entries[1], TaraEntry::new("world".to_owned(), vec![]));
}

#[test]
fn empty_archive_encodes_to_zero_count() {
    let archive = TaraArchive::new();
    let mut out = Vec::new();
    archive.write(&mut out).unwrap();
    assert_eq!(out, [0, 0, 0, 0]);
    let back = TaraArchive::read(&out).unwrap();
    assert!(back.entries.is_empty());
}

#[test]
fn default_is_empty() {
    let archive = TaraArchive::default();
    assert!(archive.entries.is_empty());
    assert_eq!(archive, TaraArchive::new());
}

#[test]
fn round_trip_keeps_entries_and_order() {
    let mut archive = TaraArchive::new();
    archive.add_entry("b".to_owned(), vec![]);
    archive.add_entry("".to_owned(), vec![9; 300]);
    archive.add_entry("größe".to_owned(), vec![0, 255, 7]);
    archive.add_entry("b".to_owned(), vec![1]);
    let mut out = Vec::new();
    archive.write(&mut out).unwrap();
    let back = TaraArchive::read(&out).unwrap();
    assert_eq!(back, archive);
}

#[test]
fn write_appends_after_existing_bytes() {
    let mut archive = TaraArchive::new();
    archive.add_entry("x".to_owned(), vec![42]);
    let mut out = vec![7, 7];
    archive.write(&mut out).unwrap();
    assert_eq!(out, [7, 7, 0, 0, 0, 1, 0, 1, 120, 0, 0, 0, 1, 42]);
}

#[test]
fn order_follows_header_with_empty_payloads() {
    let bytes = [
        0, 0, 0, 3, //
        0, 1, 99, 0, 0, 0, 0, //
        0, 1, 97, 0, 0, 0, 2, //
        0, 1, 98, 0, 0, 0, 0, //
        5, 6,
    ];
    let archive = TaraArchive::read(&bytes).unwrap();
    let names: Vec<&str> = archive.entries.iter().map(|e| e.name.as_str()).collect();
    assert_eq!(names, ["c", "a", "b"]);
    assert_eq!(archive.entries[0].data, []);
    assert_eq!(archive.entries[1].data, [5, 6]);
    assert_eq!(archive.entries[2].data, []);
}

#[test]
fn multi_byte_lengths_are_big_endian() {
    let mut archive = TaraArchive::new();
    archive.add_entry("n".repeat(258), vec![3; 65537]);
    let mut out = Vec::new();
    archive.write(&mut out).unwrap();
    assert_eq!(&out[0..6], &[0, 0, 0, 1, 1, 2]);
    assert_eq!(&out[264..268], &[0, 1, 0, 1]);
    assert_eq!(out.len(), 4 + 2 + 258 + 4 + 65537);
    let back = TaraArchive::read(&out).unwrap();
    assert_eq!(back.entries[0].name.len(), 258);
    assert_eq!(back.entries[0].data.len(), 65537);
}

#[test]
fn get_entry_returns_first_match() {
    let mut archive = TaraArchive::new();
    archive.add_entry("a".to_owned(), vec![1]);
    archive.add_entry("dup".to_owned(), vec![2]);
    archive.add_entry("dup".to_owned(), vec![3]);
    let e = archive.get_entry("dup").unwrap();
    assert_eq!(e.data, [2]);
    assert_eq!(archive.get_entry("a").unwrap().data, [1]);
}

#[test]
fn get_entry_absent_is_none() {
    let mut archive = TaraArchive::new();
    assert!(archive.get_entry("").is_none());
    archive.add_entry("abc".to_owned(), vec![]);
    assert!(archive.get_entry("ab").is_none());
    assert!(archive.get_entry("abcd").is_none());
    assert!(archive.get_entry("").is_none());
}

#[test]
fn truncated_payload_fails() {
    for cut in 0..SAMPLE.len() {
        assert_eq!(TaraArchive::read(&SAMPLE[..cut]), Err(DecodeError::UnexpectedEnd), "cut {}", cut);
    }
}

#[test]
fn trailing_bytes_are_ignored() {
    let mut bytes = SAMPLE.to_vec();
    bytes.extend_from_slice(&[8, 8, 8]);
    let archive = TaraArchive::read(&bytes).unwrap();
    assert_eq!(archive, TaraArchive::read(&SAMPLE).unwrap());
}

#[test]
fn invalid_utf8_name_is_rejected() {
    let bytes = [0, 0, 0, 1, 0, 2, 0xC3, 0x28, 0, 0, 0, 0];
    assert_eq!(TaraArchive::read(&bytes), Err(DecodeError::InvalidName));
}

#[test]
fn invalid_name_reported_before_missing_length() {
    let bytes = [0, 0, 0, 1, 0, 1, 0xFF];
    assert_eq!(TaraArchive::read(&bytes), Err(DecodeError::InvalidName));
}

#[test]
fn utf8_name_decodes() {
    let bytes = [0, 0, 0, 1, 0, 2, 0xC3, 0xA9, 0, 0, 0, 1, 4];
    let archive = TaraArchive::read(&bytes).unwrap();
    assert_eq!(archive.entries[0].name, "é");
    assert_eq!(archive.entries[0].data, [4]);
}

#[test]
fn overlong_name_is_not_encoded() {
    let mut archive = TaraArchive::new();
    archive.add_entry("ok".to_owned(), vec![1]);
    archive.add_entry("x".repeat(65536), vec![]);
    let mut out = vec![1];
    assert_eq!(archive.write(&mut out), Err(EncodeError::FieldOverflow));
    assert_eq!(out, [1]);
}

#[test]
fn longest_name_is_encoded() {
    let mut archive = TaraArchive::new();
    archive.add_entry("y".repeat(65535), vec![]);
    let mut out = Vec::new();
    archive.write(&mut out).unwrap();
    assert_eq!(&out[4..6], &[255, 255]);
    assert_eq!(TaraArchive::read(&out).unwrap(), archive);
}

#[test]
fn entry_new_keeps_fields() {
    let e = TaraEntry::new("name".to_owned(), vec![1, 2]);
    assert_eq!(e.name, "name");
    assert_eq!(e.data, [1, 2]);
}
