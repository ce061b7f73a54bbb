use bigtiff_consolidate::entry::IfdEntry;
use bigtiff_consolidate::error::Error;
use bigtiff_consolidate::metadata::{escape_json_string, extract_metadata, join_lines,
    metadata_to_json_line, metadata_value, tag_name, trim_terminator, Metadata};
use bigtiff_consolidate::ome::{create_ome_description_entry, extract_image_dimensions,
    generate_ome_xml};
use bigtiff_consolidate::reader::BigTiffReader;
use bigtiff_consolidate::source::keeps_tag;
use bigtiff_consolidate::writer::{Action, BigTiffWriter};

#[test]
fn names_of_tags() {
    assert_eq!(tag_name(270), Some("ImageDescription"));
    assert_eq!(tag_name(271), Some("Make"));
    assert_eq!(tag_name(272), Some("Model"));
    assert_eq!(tag_name(305), Some("Software"));
    assert_eq!(tag_name(306), Some("DateTime"));
    assert_eq!(tag_name(315), Some("Artist"));
    assert_eq!(tag_name(33432), Some("Copyright"));
    assert_eq!(tag_name(256), None);
}

#[test]
fn essential_tags() {
    let kept: Vec<u16> = (0..=u16::MAX).filter(|t| keeps_tag(*t)).collect();
    assert_eq!(
        kept,
        vec![
            256, 257, 258, 259, 262, 273, 277, 278, 279, 282, 283, 284, 296, 322, 323, 324, 325,
            339
        ]
    );
}

#[test]
fn escaping() {
    assert_eq!(escape_json_string(""), "\"\"");
    assert_eq!(escape_json_string("plain"), "\"plain\"");
    assert_eq!(escape_json_string("a\"b\\c"), "\"a\\\"b\\\\c\"");
    assert_eq!(escape_json_string("\n\r\t"), "\"\\n\\r\\t\"");
    assert_eq!(escape_json_string("\u{1}\u{1f}\u{7f}\u{9f}"), "\"\\u0001\\u001f\\u007f\\u009f\"");
    assert_eq!(escape_json_string("\u{a0}\u{b5}m \u{1f52c}/"), "\"\u{a0}\u{b5}m \u{1f52c}/\"");
}

#[test]
fn control_characters_are_those_of_std() {
    for code in 0u32..0x300 {
        let c = char::from_u32(code).unwrap();
        let escaped = escape_json_string(&c.to_string());
        let plain = format!("\"{}\"", c);
        let special = c.is_control() || c == '"' || c == '\\';
        assert_eq!(escaped != plain, special, "{:x}", code);
    }
}

#[test]
fn terminators() {
    assert_eq!(trim_terminator("abc\0"), "abc");
    assert_eq!(trim_terminator("a\0b\0\0"), "a\0b");
    assert_eq!(trim_terminator("\0\0"), "");
    assert_eq!(trim_terminator("abc"), "abc");
}

#[test]
fn values_given_their_validity() {
    assert_eq!(metadata_value("{\"a\":1}", true), "{\"a\":1}");
    assert_eq!(metadata_value("{\"a\":1}", false), "\"{\\\"a\\\":1}\"");
}

#[test]
fn line_breaks_become_blanks() {
    assert_eq!(join_lines("a\nb\r\nc\td"), "a b  c\td");
    assert_eq!(metadata_value("{\n\"a\":1}", true), "{ \"a\":1}");
    assert_eq!(metadata_value("{\n", false), "\"{\\n\"");
}

#[test]
fn json_over_several_lines_is_exported_on_one() {
    let mut m = Metadata::new();
    m.insert(270, "{\n\"a\":1}".to_string());
    assert_eq!(metadata_to_json_line(&m), "{\"ImageDescription\":{ \"a\":1}}");
    m.insert(270, "{\r\n  \"shape\": [\n    2,\n    3\n  ]\r\n}\n".to_string());
    m.insert(305, "first\nsecond".to_string());
    let line = metadata_to_json_line(&m);
    assert_eq!(
        line,
        "{\"ImageDescription\":{    \"shape\": [     2,     3   ]  } ,\"Software\":\"first\\nsecond\"}"
    );
    assert!(!line.contains('\n') && !line.contains('\r'));
}

#[test]
fn no_metadata() {
    assert_eq!(metadata_to_json_line(&Metadata::new()), "{}");
}

#[test]
fn members_by_name() {
    let mut m = Metadata::new();
    m.insert(305, "tifffile.py".to_string());
    m.insert(270, "old".to_string());
    m.insert(272, "X1".to_string());
    m.insert(271, "Acme".to_string());
    m.insert(33432, "me".to_string());
    m.insert(306, "2024:01:01 00:00:00".to_string());
    m.insert(315, "A \"B\"".to_string());
    m.insert(270, "{\"axes\": \"ZYX\"}".to_string());
    assert_eq!(
        metadata_to_json_line(&m),
        "{\"Artist\":\"A \\\"B\\\"\",\"Copyright\":\"me\",\"DateTime\":\"2024:01:01 00:00:00\",\
         \"ImageDescription\":{\"axes\": \"ZYX\"},\"Make\":\"Acme\",\"Model\":\"X1\",\
         \"Software\":\"tifffile.py\"}"
    );
}

#[test]
fn json_is_recognised() {
    let texts = [
        ("{\"shape\": [2, 3]}", true),
        ("42", true),
        ("\"x\"", true),
        ("null", true),
        ("[1, 2]", true),
        ("ImageJ=1.53t", false),
        ("{\"a\": }", false),
        ("[1, 2", false),
        ("", false),
        ("<?xml?>", false),
    ];
    for (text, valid) in texts {
        let mut m = Metadata::new();
        m.insert(270, text.to_string());
        let value = if valid { text.to_string() } else { escape_json_string(text) };
        assert_eq!(metadata_to_json_line(&m), format!("{{\"ImageDescription\":{}}}", value));
    }
}

fn inline_text(tag: u16, typ: u16, text: &[u8]) -> IfdEntry {
    let mut value_or_offset = [0u8; 8];
    value_or_offset[..text.len()].copy_from_slice(text);
    IfdEntry { tag, typ, count: text.len() as u64, value_or_offset }
}

fn reader() -> BigTiffReader {
    BigTiffReader::open(&[0x49, 0x49, 43, 0, 8, 0, 0, 0]).unwrap()
}

#[test]
fn only_text_is_collected() {
    let entries = vec![
        inline_text(271, 2, b"Acme\0"),
        inline_text(272, 1, b"X1\0"),
        inline_text(305, 2, b"\0\0"),
        inline_text(256, 2, b"no\0"),
        inline_text(306, 2, b"old"),
        inline_text(306, 2, b"new"),
    ];
    let m = extract_metadata(&entries, &reader()).unwrap();
    assert_eq!(m.get(271).map(|s| s.as_str()), Some("Acme"));
    assert_eq!(m.get(306).map(|s| s.as_str()), Some("new"));
    assert!(m.get(272).is_none());
    assert!(m.get(305).is_none());
    assert!(m.get(256).is_none());
    assert_eq!(metadata_to_json_line(&m), "{\"DateTime\":\"new\",\"Make\":\"Acme\"}");
}

#[test]
fn invalid_utf8_is_replaced() {
    let entries = vec![inline_text(315, 2, &[b'J', 0xff, b'n', 0]), inline_text(272, 2, "\u{b5}m".as_bytes())];
    let m = extract_metadata(&entries, &reader()).unwrap();
    assert_eq!(m.get(315).map(|s| s.as_str()), Some("J\u{fffd}n"));
    assert_eq!(m.get(272).map(|s| s.as_str()), Some("\u{b5}m"));
}

#[test]
fn long_text_is_asked_for() {
    let mut e = inline_text(270, 2, &[]);
    e.count = 11;
    e.value_or_offset[0] = 100;
    let mut r = reader();
    assert_eq!(
        extract_metadata(&[e], &r).err(),
        Some(Error::NeedBytes { offset: 100, len: 11 })
    );
    r.supply(100, b"Hello world".to_vec());
    let m = extract_metadata(&[e], &r).unwrap();
    assert_eq!(m.get(270).map(|s| s.as_str()), Some("Hello world"));
    e.typ = 2;
    e.count = u64::MAX;
    assert_eq!(
        extract_metadata(&[e], &r).err(),
        Some(Error::NeedBytes { offset: 100, len: u64::MAX })
    );
}

fn number(tag: u16, typ: u16, v: u32) -> IfdEntry {
    let mut value_or_offset = [0u8; 8];
    value_or_offset[..4].copy_from_slice(&v.to_le_bytes());
    IfdEntry { tag, typ, count: 1, value_or_offset }
}

#[test]
fn image_dimensions() {
    assert_eq!(extract_image_dimensions(&[]), (0, 0, 16));
    let entries = vec![number(256, 4, 70000), number(257, 3, 512), number(258, 3, 8)];
    assert_eq!(extract_image_dimensions(&entries), (70000, 512, 8));
    let twice = vec![number(256, 4, 1), number(256, 4, 2)];
    assert_eq!(extract_image_dimensions(&twice), (2, 0, 16));
}

#[test]
fn ome_xml() {
    let xml = generate_ome_xml(640, 480, 20000, 8);
    let expected = r#"<?xml version="1.0" encoding="UTF-8"?>
<OME xmlns="http://www.openmicroscopy.org/Schemas/OME/2016-06"
     xmlns:xsi="http://www.w3.org/2001/XMLSchema-instance"
     xsi:schemaLocation="http://www.openmicroscopy.org/Schemas/OME/2016-06 http://www.openmicroscopy.org/Schemas/OME/2016-06/ome.xsd">
  <Image ID="Image:0" Name="image">
    <Pixels ID="Pixels:0" DimensionOrder="XYZCT" Type="uint8"
            SizeX="640" SizeY="480" SizeZ="20000" SizeC="1" SizeT="1"
            BigEndian="false" Interleaved="false">
      <Channel ID="Channel:0:0" SamplesPerPixel="1"/>
      <TiffData IFD="0" PlaneCount="20000"/>
    </Pixels>
  </Image>
</OME>"#;
    assert_eq!(xml, expected);
    assert!(generate_ome_xml(1, 1, 1, 16).contains("Type=\"uint16\""));
    assert!(generate_ome_xml(1, 1, 1, 32).contains("Type=\"uint32\""));
    assert!(generate_ome_xml(1, 1, 1, 12).contains("Type=\"uint16\""));
}

#[test]
fn descriptions_inline_and_outside() {
    let mut w = BigTiffWriter::create();
    let e = create_ome_description_entry("short", &mut w).unwrap();
    assert_eq!((e.tag, e.typ, e.count), (270, 2, 6));
    assert_eq!(&e.value_or_offset, b"short\0\0\0");
    assert_eq!(w.current_position(), 16);
    w.write_bytes(vec![1]).unwrap();
    let e = create_ome_description_entry("longer \u{b5}", &mut w).unwrap();
    assert_eq!((e.tag, e.typ, e.count), (270, 2, 10));
    assert_eq!(e.offset(), 24);
    assert_eq!(w.current_position(), 34);
    let actions = w.flush();
    match actions.last() {
        Some(Action::Append(b)) => assert_eq!(b, "longer \u{b5}\0".as_bytes()),
        _ => panic!("nothing appended"),
    }
}
