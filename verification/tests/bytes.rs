use bigtiff_consolidate::bytes::{le_at, read_u16, read_u64, u64_bytes, write_u16, write_u64};
use bigtiff_consolidate::entry::IfdEntry;
use bigtiff_consolidate::error::Error;
use bigtiff_consolidate::offsets::{encode_offsets, parse_offsets};

#[test]
fn words_are_little_endian() {
    let mut w: Vec<u8> = Vec::new();
    write_u16(&mut w, 0x4949);
    write_u16(&mut w, 43);
    assert_eq!(w, vec![0x49, 0x49, 43, 0]);
    assert_eq!(read_u16(&w, 2), Ok(43));
}

#[test]
fn long_words_survive() {
    let mut w: Vec<u8> = vec![7];
    write_u64(&mut w, 0x0102_0304_0506_0708);
    assert_eq!(w, vec![7, 8, 7, 6, 5, 4, 3, 2, 1]);
    assert_eq!(read_u64(&w, 1), Ok(0x0102_0304_0506_0708));
    assert_eq!(u64_bytes(0x0102_0304_0506_0708), [8, 7, 6, 5, 4, 3, 2, 1]);
    assert_eq!(le_at(&w, 1, 4), 0x0506_0708);
}

#[test]
fn words_beyond_the_end() {
    let w: Vec<u8> = vec![1, 2, 3];
    assert_eq!(read_u16(&w, 1), Ok(0x0302));
    assert_eq!(read_u16(&w, 2), Err(Error::UnexpectedEof));
    assert_eq!(read_u64(&w, 0), Err(Error::UnexpectedEof));
    assert_eq!(read_u16(&w, usize::MAX), Err(Error::UnexpectedEof));
}

fn entry(typ: u16, count: u64) -> IfdEntry {
    IfdEntry { tag: 1, typ, count, value_or_offset: [1, 2, 0, 0, 0, 0, 0, 0] }
}

#[test]
fn value_sizes() {
    let sizes: [(u16, u64); 19] = [
        (0, 1), (1, 1), (2, 1), (3, 2), (4, 4), (5, 8), (6, 1), (7, 1), (8, 2), (9, 4), (10, 8),
        (11, 4), (12, 8), (13, 1), (14, 1), (16, 8), (17, 8), (18, 8), (99, 1),
    ];
    for (typ, size) in sizes {
        assert_eq!(entry(typ, 3).value_size(), 3 * size);
        assert_eq!(entry(typ, 3).is_inline(), 3 * size <= 8);
    }
    assert!(entry(4, 2).is_inline());
    assert!(!entry(4, 3).is_inline());
    assert_eq!(entry(4, 3).offset(), 0x0201);
}

#[test]
fn sizes_that_overflow() {
    assert!(entry(1, u64::MAX).value_fits());
    assert!(!entry(3, u64::MAX).value_fits());
    assert!(entry(16, u64::MAX / 8).value_fits());
    assert!(!entry(16, u64::MAX / 8 + 1).value_fits());
}

#[test]
fn offsets_of_each_width() {
    let data: Vec<u8> = vec![1, 0, 2, 0, 3, 0, 4, 0, 5, 0, 6, 0, 7, 0, 8, 0];
    assert_eq!(parse_offsets(&data, 3, 3), vec![1, 2, 3]);
    assert_eq!(parse_offsets(&data, 4, 2), vec![0x0002_0001, 0x0004_0003]);
    assert_eq!(parse_offsets(&data, 16, 2), vec![0x0004_0003_0002_0001, 0x0008_0007_0006_0005]);
    assert_eq!(parse_offsets(&data, 5, 2), Vec::<u64>::new());
}

#[test]
fn encoded_offsets_are_parsed_back() {
    let offsets: Vec<u64> = vec![16, 0, u64::MAX, 4096];
    let (typ, data) = encode_offsets(&offsets);
    assert_eq!(typ, 16);
    assert_eq!(data.len(), 32);
    assert_eq!(data[..8], [16, 0, 0, 0, 0, 0, 0, 0]);
    assert_eq!(parse_offsets(&data, typ, 4), offsets);
}
