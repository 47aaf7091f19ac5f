use unquantum::entry::QFileEntry;
use unquantum::errors::QtmError;
use unquantum::parser::{parse_archive, read_u16_le, read_u32_le, read_var_length, read_var_string};

fn header(num_files: u16, table_size: u8) -> Vec<u8> {
    vec![
        0x44,
        0x53,
        1,
        0,
        (num_files & 0xFF) as u8,
        (num_files >> 8) as u8,
        table_size,
        0,
    ]
}

fn push_entry(data: &mut Vec<u8>, name: &[u8], comment: &[u8], size: u32, time: u16, date: u16) {
    assert!(name.len() < 128 && comment.len() < 128);
    data.push(name.len() as u8);
    data.extend_from_slice(name);
    data.push(comment.len() as u8);
    data.extend_from_slice(comment);
    data.extend_from_slice(&size.to_le_bytes());
    data.extend_from_slice(&time.to_le_bytes());
    data.extend_from_slice(&date.to_le_bytes());
}

#[test]
fn rejects_too_small() {
    let r = parse_archive(&[0x44, 0x53, 1]);
    assert_eq!(r.unwrap_err(), QtmError::TooSmall);
}

#[test]
fn rejects_bad_signature() {
    let data = vec![0x44, 0x54, 1, 0, 0, 0, 10, 0];
    let e = parse_archive(&data).unwrap_err();
    assert_eq!(e, QtmError::InvalidSignature);
    assert_eq!(e.message(), "invalid signature");
}

#[test]
fn rejects_table_size_nine() {
    let data = header(0, 9);
    let e = parse_archive(&data).unwrap_err();
    assert_eq!(e, QtmError::InvalidTableSize);
    assert_eq!(e.message(), "invalid table size");
}

#[test]
fn rejects_table_size_twenty_two() {
    let data = header(0, 22);
    assert_eq!(parse_archive(&data).unwrap_err(), QtmError::InvalidTableSize);
}

#[test]
fn empty_archive_parses() {
    let data = header(0, 10);
    let (hdr, files, offset) = parse_archive(&data).unwrap();
    assert_eq!(hdr.major_version, 1);
    assert_eq!(hdr.minor_version, 0);
    assert_eq!(hdr.num_files, 0);
    assert_eq!(hdr.table_size, 10);
    assert_eq!(hdr.comp_flags, 0);
    assert!(files.is_empty());
    assert_eq!(offset, 8);
}

#[test]
fn single_entry_parses() {
    let mut data = header(1, 12);
    push_entry(&mut data, b"hello.txt", b"greeting", 5, 0x4A21, 0x2AAD);
    data.extend_from_slice(&[0xDE, 0xAD]);
    let (hdr, files, offset) = parse_archive(&data).unwrap();
    assert_eq!(hdr.num_files, 1);
    assert_eq!(files.len(), 1);
    assert_eq!(files[0].name, "hello.txt");
    assert_eq!(files[0].comment, "greeting");
    assert_eq!(files[0].size, 5);
    assert_eq!(files[0].time, 0x4A21);
    assert_eq!(files[0].date, 0x2AAD);
    assert_eq!(offset, data.len() - 2);
}

#[test]
fn two_entries_parse_in_order() {
    let mut data = header(2, 10);
    push_entry(&mut data, b"a", b"", 3, 1, 2);
    push_entry(&mut data, b"b", b"c", 4, 5, 6);
    let (_, files, offset) = parse_archive(&data).unwrap();
    assert_eq!(files.len(), 2);
    assert_eq!(files[0].name, "a");
    assert_eq!(files[1].name, "b");
    assert_eq!(files[1].comment, "c");
    assert_eq!(files[1].size, 4);
    assert_eq!(offset, data.len());
}

#[test]
fn long_name_uses_two_byte_prefix() {
    let mut data = header(1, 10);
    let name: Vec<u8> = std::iter::repeat(b'a').take(300).collect();
    data.push(0x80 | (300u16 >> 8) as u8);
    data.push((300u16 & 0xFF) as u8);
    data.extend_from_slice(&name);
    data.push(0); // empty comment
    data.extend_from_slice(&7u32.to_le_bytes());
    data.extend_from_slice(&0u16.to_le_bytes());
    data.extend_from_slice(&0u16.to_le_bytes());
    let (_, files, _) = parse_archive(&data).unwrap();
    assert_eq!(files[0].name.len(), 300);
    assert!(files[0].name.bytes().all(|b| b == b'a'));
}

#[test]
fn invalid_utf8_is_replaced() {
    let mut data = header(1, 10);
    push_entry(&mut data, &[0xFF, 0x41], b"", 0, 0, 0);
    let (_, files, _) = parse_archive(&data).unwrap();
    assert_eq!(files[0].name, "\u{FFFD}A");
}

#[test]
fn truncated_file_table() {
    let mut data = header(1, 10);
    data.push(5); // name of length 5, but no bytes follow
    assert_eq!(parse_archive(&data).unwrap_err(), QtmError::Truncated);
}

#[test]
fn truncated_fixed_fields() {
    let mut data = header(1, 10);
    data.push(1);
    data.push(b'x');
    data.push(0);
    data.push(9); // only one byte of the 32-bit size
    assert_eq!(parse_archive(&data).unwrap_err(), QtmError::Truncated);
}

#[test]
fn var_length_forms() {
    let data: Vec<u8> = vec![5, 0x81, 0x02, 127];
    let mut pos = 0usize;
    assert_eq!(read_var_length(&data, &mut pos).unwrap(), 5);
    assert_eq!(pos, 1);
    assert_eq!(read_var_length(&data, &mut pos).unwrap(), 0x0102);
    assert_eq!(pos, 3);
    assert_eq!(read_var_length(&data, &mut pos).unwrap(), 127);
    assert_eq!(pos, 4);
    assert_eq!(read_var_length(&data, &mut pos).unwrap_err(), QtmError::Truncated);
}

#[test]
fn var_string_reads_and_advances() {
    let data: Vec<u8> = vec![3, b'a', b'b', b'c', 0];
    let mut pos = 0usize;
    assert_eq!(read_var_string(&data, &mut pos).unwrap(), "abc");
    assert_eq!(pos, 4);
    assert_eq!(read_var_string(&data, &mut pos).unwrap(), "");
    assert_eq!(pos, 5);
}

#[test]
fn var_string_too_long_is_truncated() {
    let data: Vec<u8> = vec![9, b'a'];
    let mut pos = 0usize;
    assert_eq!(read_var_string(&data, &mut pos).unwrap_err(), QtmError::Truncated);
}

#[test]
fn little_endian_integers() {
    let data: Vec<u8> = vec![0x34, 0x12, 0x78, 0x56, 0x34, 0x12];
    let mut pos = 0usize;
    assert_eq!(read_u16_le(&data, &mut pos).unwrap(), 0x1234);
    assert_eq!(pos, 2);
    assert_eq!(read_u32_le(&data, &mut pos).unwrap(), 0x12345678);
    assert_eq!(pos, 6);
    assert_eq!(read_u16_le(&data, &mut pos).unwrap_err(), QtmError::Truncated);
    assert_eq!(pos, 6);
    let mut late = 3usize;
    assert_eq!(read_u32_le(&data, &mut late).unwrap_err(), QtmError::Truncated);
    assert_eq!(late, 3);
}

#[test]
fn dos_date_and_time_strings() {
    let entry = QFileEntry {
        name: String::new(),
        comment: String::new(),
        size: 0,
        // year 2001 (21 past 1980), month 5, day 13
        date: (21 << 9) | (5 << 5) | 13,
        // hour 3, minute 7, second 58 (stored halved)
        time: (3 << 11) | (7 << 5) | 29,
    };
    assert_eq!(entry.date_string(), "13-05-2001");
    assert_eq!(entry.time_string(), "03:07:58");
}

#[test]
fn dos_epoch_strings() {
    let entry = QFileEntry {
        name: String::new(),
        comment: String::new(),
        size: 0,
        date: 0,
        time: 0,
    };
    assert_eq!(entry.date_string(), "00-00-1980");
    assert_eq!(entry.time_string(), "00:00:00");
}
