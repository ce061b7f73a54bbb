use bigtiff_consolidate::error::Error;

#[test]
fn messages() {
    assert_eq!(Error::NotLittleEndian.message(), "Only little-endian BigTIFF supported");
    assert_eq!(
        Error::NotBigTiff { magic: 42 }.message(),
        "Not a BigTIFF file (magic=42, expected 43)"
    );
    assert_eq!(Error::InvalidOffsetSize.message(), "Invalid BigTIFF offset size");
    assert_eq!(Error::UnexpectedEof.message(), "failed to fill whole buffer");
    assert_eq!(Error::NeedBytes { offset: 16, len: 8 }.message(), "Needs 8 bytes at 16");
    for e in [
        Error::TooManyEntries,
        Error::ValueTooLarge,
        Error::BlockOutOfRange,
        Error::OutputTooLarge,
    ] {
        assert!(!e.message().is_empty());
    }
}
