use dns_in_a_weekend::{decode, encode, ByteCursor, DNSError};

#[test]
fn encode_name_counts_labels_without_the_terminator() {
    let mut writer = vec![0xff];
    let count = encode::dns_name(&mut writer, "google.com").unwrap();
    assert_eq!(writer, b"\xff\x06google\x03com\0".to_vec());
    assert_eq!(count, 11);
}

#[test]
fn encode_name_keeps_empty_labels() {
    let mut writer = vec![];
    encode::dns_name(&mut writer, "a..b").unwrap();
    assert_eq!(writer, b"\x01a\0\x01b\0".to_vec());

    let mut writer = vec![];
    let count = encode::dns_name(&mut writer, "").unwrap();
    assert_eq!(writer, vec![0, 0]);
    assert_eq!(count, 1);

    let mut writer = vec![];
    encode::dns_name(&mut writer, "a.").unwrap();
    assert_eq!(writer, b"\x01a\0\0".to_vec());
}

#[test]
fn encode_name_takes_a_label_of_255_bytes() {
    let label = "x".repeat(255);
    let name = format!("{}.com", label);
    let mut writer = vec![];
    let count = encode::dns_name(&mut writer, &name).unwrap();
    assert_eq!(writer.len(), 1 + 255 + 1 + 3 + 1);
    assert_eq!(count, 1 + 255 + 1 + 3);
    assert_eq!(writer[0], 255);
    assert_eq!(&writer[256..], b"\x03com\0");

    let mut reader = ByteCursor::new(&writer);
    let (decoded, read) = decode::dns_name_simple(&mut reader).unwrap();
    assert_eq!(decoded, name);
    assert_eq!(read, writer.len());
    assert_eq!(reader.position(), writer.len());
}

#[test]
fn encode_name_refuses_a_label_of_256_bytes() {
    let label = "y".repeat(256);
    let name = format!("www.{}.com", label);
    let mut writer = vec![7];
    match encode::dns_name(&mut writer, &name) {
        Err(DNSError::DomainNameHasTooLongPart { part, domain_name }) => {
            assert_eq!(part, label);
            assert_eq!(domain_name, name);
        }
        other => panic!("unexpected: {:?}", other),
    }
    assert_eq!(writer, b"\x07\x03www".to_vec());
}

#[test]
fn encode_name_counts_bytes_not_characters() {
    let mut writer = vec![];
    encode::dns_name(&mut writer, "bücher.de").unwrap();
    assert_eq!(writer, b"\x07b\xc3\xbccher\x02de\0".to_vec());

    let mut reader = ByteCursor::new(&writer);
    let (decoded, _) = decode::dns_name(&mut reader).unwrap();
    assert_eq!(decoded, "bücher.de");
}

#[test]
fn name_round_trip_with_compression_looked_for() {
    let label = "z".repeat(191);
    for name in ["google.com", "a", "a.b.c.d.e", label.as_str()] {
        let mut writer = vec![];
        encode::dns_name(&mut writer, name).unwrap();
        let mut reader = ByteCursor::new(&writer);
        let (decoded, read) = decode::dns_name(&mut reader).unwrap();
        assert_eq!(decoded, name);
        assert_eq!(read, writer.len());
        assert_eq!(reader.position(), writer.len());
    }
}

#[test]
fn a_label_of_192_bytes_reads_as_a_pointer() {
    let label = "z".repeat(192);
    let mut writer = vec![];
    encode::dns_name(&mut writer, &label).unwrap();
    let mut reader = ByteCursor::new(&writer);
    assert!(decode::dns_name(&mut reader).is_err());
    let mut reader = ByteCursor::new(&writer);
    let (decoded, _) = decode::dns_name_simple(&mut reader).unwrap();
    assert_eq!(decoded, label);
}

#[test]
fn a_length_byte_with_one_high_bit_is_a_length() {
    // 0x40 has only one of the two high bits set: 64 bytes of label follow.
    let mut bytes = vec![0x40];
    bytes.extend_from_slice(&[b'a'; 64]);
    bytes.push(0);
    let mut reader = ByteCursor::new(&bytes);
    let (decoded, read) = decode::dns_name(&mut reader).unwrap();
    assert_eq!(decoded, "a".repeat(64));
    assert_eq!(read, 66);
}

#[test]
fn an_empty_label_ends_the_name_on_the_way_back() {
    let mut writer = vec![];
    encode::dns_name(&mut writer, "a..b").unwrap();
    let mut reader = ByteCursor::new(&writer);
    let (decoded, read) = decode::dns_name_simple(&mut reader).unwrap();
    assert_eq!(decoded, "a");
    assert_eq!(read, 3);
    assert_eq!(reader.position(), 3);
}

#[test]
fn a_pointer_decodes_as_its_target() {
    // offset 0: "example.com", offset 13: "www" and a pointer to offset 0.
    let mut bytes = b"\x07example\x03com\0".to_vec();
    bytes.extend_from_slice(b"\x03www\xc0\x00");
    bytes.push(0xee);

    let mut reader = ByteCursor::new(&bytes);
    let (target, target_read) = decode::dns_name(&mut reader).unwrap();
    assert_eq!(target, "example.com");
    assert_eq!(target_read, 13);
    assert_eq!(reader.position(), 13);

    let (name, read) = decode::dns_name(&mut reader).unwrap();
    assert_eq!(name, "www.example.com");
    // four bytes of "www", the first byte of the pointer, what the target took
    assert_eq!(read, 4 + 1 + 13);
    assert_eq!(reader.position(), 19);

    reader.seek(17);
    let (through_pointer, _) = decode::dns_name(&mut reader).unwrap();
    assert_eq!(through_pointer, target);
    assert_eq!(reader.position(), 19);

    reader.seek(18);
    let (behind_first_byte, read) = decode::dns_name_compressed(&mut reader, 0).unwrap();
    assert_eq!(behind_first_byte, "example.com");
    assert_eq!(read, 13);
    assert_eq!(reader.position(), 19);
}

#[test]
fn a_pointer_uses_six_bits_of_its_first_byte() {
    let mut bytes = vec![0u8; 0x0123];
    bytes.extend_from_slice(b"\x02ab\0");
    bytes.extend_from_slice(&[0xc1, 0x23]);
    let mut reader = ByteCursor::new(&bytes);
    reader.seek(0x0127);
    let (name, _) = decode::dns_name(&mut reader).unwrap();
    assert_eq!(name, "ab");
    assert_eq!(reader.position(), 0x0129);
}

#[test]
fn a_pointer_to_an_empty_name_leaves_a_dot() {
    let bytes = b"\0\x01a\xc0\x00".to_vec();
    let mut reader = ByteCursor::new(&bytes);
    reader.seek(1);
    let (name, read) = decode::dns_name(&mut reader).unwrap();
    assert_eq!(name, "a.");
    assert_eq!(read, 2 + 1 + 1);

    reader.seek(3);
    let (name, _) = decode::dns_name(&mut reader).unwrap();
    assert_eq!(name, "");
}

#[test]
fn chained_pointers_are_followed() {
    // 0: "c", 3: "b" -> 0, 7: "a" -> 3
    let bytes = b"\x01c\0\x01b\xc0\x00\x01a\xc0\x03".to_vec();
    let mut reader = ByteCursor::new(&bytes);
    reader.seek(7);
    let (name, _) = decode::dns_name(&mut reader).unwrap();
    assert_eq!(name, "a.b.c");
    assert_eq!(reader.position(), 11);
}

#[test]
fn a_pointer_to_itself_is_a_loop() {
    let bytes = vec![0xc0, 0x00];
    let mut reader = ByteCursor::new(&bytes);
    assert!(matches!(decode::dns_name(&mut reader), Err(DNSError::CompressionLoop)));

    let bytes = b"\x01a\xc0\x04\x01b\xc0\x00".to_vec();
    let mut reader = ByteCursor::new(&bytes);
    assert!(matches!(decode::dns_name(&mut reader), Err(DNSError::CompressionLoop)));
}

#[test]
fn the_jump_budget_is_counted() {
    let bytes = b"\x01c\0\x01b\xc0\x00\x01a\xc0\x03".to_vec();
    let mut reader = ByteCursor::new(&bytes);
    reader.seek(7);
    assert!(matches!(decode::dns_name_within(&mut reader, 1), Err(DNSError::CompressionLoop)));
    reader.seek(7);
    assert!(matches!(decode::dns_name_within(&mut reader, 0), Err(DNSError::CompressionLoop)));
    reader.seek(7);
    let (name, _) = decode::dns_name_within(&mut reader, 2).unwrap();
    assert_eq!(name, "a.b.c");
    reader.seek(0);
    let (name, _) = decode::dns_name_within(&mut reader, 0).unwrap();
    assert_eq!(name, "c");
    reader.seek(6);
    assert!(matches!(
        decode::dns_name_compressed_within(&mut reader, 0, 0),
        Err(DNSError::CompressionLoop)
    ));
}

#[test]
fn decoding_fails_where_the_buffer_ends() {
    for bytes in [&b""[..], &b"\x03ab"[..], &b"\x02ab"[..], &b"\x01a\xc0"[..]] {
        let mut reader = ByteCursor::new(bytes);
        assert!(matches!(decode::dns_name(&mut reader), Err(DNSError::IOError)));
    }
    for bytes in [&b""[..], &b"\x03ab"[..], &b"\x02ab"[..]] {
        let mut reader = ByteCursor::new(bytes);
        assert!(matches!(decode::dns_name_simple(&mut reader), Err(DNSError::IOError)));
    }
    let bytes = b"\xc0\x40".to_vec();
    let mut reader = ByteCursor::new(&bytes);
    assert!(matches!(decode::dns_name(&mut reader), Err(DNSError::IOError)));
}

#[test]
fn a_label_must_be_valid_utf8() {
    let bytes = b"\x02\xff\xfe\0".to_vec();
    let mut reader = ByteCursor::new(&bytes);
    assert!(matches!(decode::dns_name(&mut reader), Err(DNSError::InvalidUTF8)));
    let mut reader = ByteCursor::new(&bytes);
    assert!(matches!(decode::dns_name_simple(&mut reader), Err(DNSError::InvalidUTF8)));
    // a character split over two labels is invalid in each
    let bytes = b"\x01\xc3\x01\xbc\0".to_vec();
    let mut reader = ByteCursor::new(&bytes);
    assert!(matches!(decode::dns_name(&mut reader), Err(DNSError::InvalidUTF8)));
}

#[test]
fn cursor_reads_big_endian() {
    let bytes = vec![0x12, 0x34, 0x56, 0x78, 0x9a, 0xbc, 0xde];
    let mut reader = ByteCursor::new(&bytes);
    assert_eq!(reader.len(), 7);
    assert_eq!(reader.read_u16().unwrap(), 0x1234);
    assert_eq!(reader.read_u32().unwrap(), 0x56789abc);
    assert_eq!(reader.position(), 6);
    assert!(matches!(reader.read_u16(), Err(DNSError::IOError)));
    assert_eq!(reader.position(), 6);
    assert_eq!(reader.read_u8().unwrap(), 0xde);
    assert!(matches!(reader.read_u8(), Err(DNSError::IOError)));
    reader.seek(1);
    assert_eq!(reader.read_exact(3).unwrap(), vec![0x34, 0x56, 0x78]);
    assert!(matches!(reader.read_exact(4), Err(DNSError::IOError)));
    assert_eq!(reader.read_exact(3).unwrap(), vec![0x9a, 0xbc, 0xde]);
    reader.seek(100);
    assert!(matches!(reader.read_u8(), Err(DNSError::IOError)));
    assert!(matches!(reader.read_u32(), Err(DNSError::IOError)));
    assert!(matches!(reader.read_exact(0), Err(DNSError::IOError)));
}
