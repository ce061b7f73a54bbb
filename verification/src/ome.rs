//! Describing the image in OME-XML.
use vstd::prelude::*;
use vstd::utf8::encode_utf8;

use crate::bytes::{law_words, le_at, le_bytes, le_value, lemma_le_limits, lemma_le_value_bound,
    u64_bytes, word16, word32};
use crate::entry::{entry_views, well_formed, ASCII, Entry, IfdEntry};
use crate::error::Error;
use crate::reader::{is_last_with, none_with};
use crate::text::{decimal, push_decimal};
use crate::writer::{pad, put, zeros, BigTiffWriter, Out};

verus! {

/// Tag of the entry that holds the width.
pub const IMAGE_WIDTH: u16 = 256;

/// Tag of the entry that holds the height.
pub const IMAGE_LENGTH: u16 = 257;

/// Tag of the entry that holds the bits per sample.
pub const BITS_PER_SAMPLE: u16 = 258;

/// Tag of the entry that holds the description.
pub const IMAGE_DESCRIPTION: u16 = 270;

/// The number in the first `width` bytes of the value field of the last entry
/// with tag `tag`, or `default` where there is none.
pub open spec fn last_number(entries: Seq<Entry>, tag: u16, width: int, default: nat) -> nat
    decreases entries.len(),
{
    if entries.len() == 0 {
        default
    } else if entries.last().tag == tag {
        le_value(entries.last().value.take(width))
    } else {
        last_number(entries.drop_last(), tag, width, default)
    }
}

/// Width, height and bits per sample of the image of an IFD.
pub open spec fn dimensions(entries: Seq<Entry>) -> (u32, u32, u16) {
    (
        last_number(entries, IMAGE_WIDTH, 4, 0) as u32,
        last_number(entries, IMAGE_LENGTH, 4, 0) as u32,
        last_number(entries, BITS_PER_SAMPLE, 2, 16) as u16,
    )
}

/// Width, height and bits per sample of the image of an IFD; what no entry
/// gives is 0, 0 and 16.
pub fn extract_image_dimensions(entries: &[IfdEntry]) -> (r: (u32, u32, u16))
    ensures
        r == dimensions(entry_views(entries@)),
{
    let mut width: u32 = 0;
    let mut height: u32 = 0;
    let mut bits: u16 = 16;
    let ghost views = entry_views(entries@);
    let mut i: usize = 0;
    while i < entries.len()
        invariant
            i <= entries@.len(),
            views == entry_views(entries@),
            (width, height, bits) == dimensions(views.take(i as int)),
        decreases entries@.len() - i,
    {
        let entry: &IfdEntry = &entries[i];
        let word: u64 = le_at(&entry.value_or_offset, 0, 4);
        let half: u64 = le_at(&entry.value_or_offset, 0, 2);
        proof {
            lemma_le_limits();
            lemma_le_value_bound(entry.value_or_offset@.take(4));
            lemma_le_value_bound(entry.value_or_offset@.take(2));
            assert(entry.value_or_offset@.subrange(0, 4) =~= entry@.value.take(4));
            assert(entry.value_or_offset@.subrange(0, 2) =~= entry@.value.take(2));
            assert(views.take(i + 1).drop_last() =~= views.take(i as int));
            assert(views.take(i + 1).last() == entry@);
        }
        if entry.tag == IMAGE_WIDTH {
            width = word as u32;
        } else if entry.tag == IMAGE_LENGTH {
            height = word as u32;
        } else if entry.tag == BITS_PER_SAMPLE {
            bits = half as u16;
        }
        i = i + 1;
    }
    assert(views.take(i as int) =~= views);
    (width, height, bits)
}

/// The OME name of the pixel type with so many bits.
pub open spec fn pixel_type(bits: u16) -> Seq<char> {
    if bits == 8 {
        "uint8"@
    } else if bits == 32 {
        "uint32"@
    } else {
        "uint16"@
    }
}

/// The OME-XML of a stack of `num_z` planes.
pub open spec fn ome_xml(width: u32, height: u32, num_z: u64, bits: u16) -> Seq<char> {
    "<?xml version=\"1.0\" encoding=\"UTF-8\"?>\n"@
    + "<OME xmlns=\"http://www.openmicroscopy.org/Schemas/OME/2016-06\"\n"@
    + "     xmlns:xsi=\"http://www.w3.org/2001/XMLSchema-instance\"\n"@
    + "     xsi:schemaLocation=\"http://www.openmicroscopy.org/Schemas/OME/2016-06 http://www.openmicroscopy.org/Schemas/OME/2016-06/ome.xsd\">\n"@
    + "  <Image ID=\"Image:0\" Name=\"image\">\n"@
    + "    <Pixels ID=\"Pixels:0\" DimensionOrder=\"XYZCT\" Type=\""@
    + pixel_type(bits)
    + "\"\n            SizeX=\""@
    + decimal(width as nat)
    + "\" SizeY=\""@
    + decimal(height as nat)
    + "\" SizeZ=\""@
    + decimal(num_z as nat)
    + "\" SizeC=\"1\" SizeT=\"1\"\n"@
    + "            BigEndian=\"false\" Interleaved=\"false\">\n"@
    + "      <Channel ID=\"Channel:0:0\" SamplesPerPixel=\"1\"/>\n"@
    + "      <TiffData IFD=\"0\" PlaneCount=\""@
    + decimal(num_z as nat)
    + "\"/>\n    </Pixels>\n  </Image>\n</OME>"@
}

/// The OME-XML of a stack of `num_z` planes.
pub fn generate_ome_xml(width: u32, height: u32, num_z: u64, bits: u16) -> (r: String)
    ensures
        r@ == ome_xml(width, height, num_z, bits),
{
    let pixels: &str = match bits {
        8 => "uint8",
        16 => "uint16",
        32 => "uint32",
        _ => "uint16",
    };
    let mut s: String = String::new();
    s.append("<?xml version=\"1.0\" encoding=\"UTF-8\"?>\n");
    assert(s@ =~= "<?xml version=\"1.0\" encoding=\"UTF-8\"?>\n"@);
    s.append("<OME xmlns=\"http://www.openmicroscopy.org/Schemas/OME/2016-06\"\n");
    s.append("     xmlns:xsi=\"http://www.w3.org/2001/XMLSchema-instance\"\n");
    s.append("     xsi:schemaLocation=\"http://www.openmicroscopy.org/Schemas/OME/2016-06 http://www.openmicroscopy.org/Schemas/OME/2016-06/ome.xsd\">\n");
    s.append("  <Image ID=\"Image:0\" Name=\"image\">\n");
    s.append("    <Pixels ID=\"Pixels:0\" DimensionOrder=\"XYZCT\" Type=\"");
    s.append(pixels);
    s.append("\"\n            SizeX=\"");
    push_decimal(&mut s, width as u64);
    s.append("\" SizeY=\"");
    push_decimal(&mut s, height as u64);
    s.append("\" SizeZ=\"");
    push_decimal(&mut s, num_z);
    s.append("\" SizeC=\"1\" SizeT=\"1\"\n");
    s.append("            BigEndian=\"false\" Interleaved=\"false\">\n");
    s.append("      <Channel ID=\"Channel:0:0\" SamplesPerPixel=\"1\"/>\n");
    s.append("      <TiffData IFD=\"0\" PlaneCount=\"");
    push_decimal(&mut s, num_z);
    s.append("\"/>\n    </Pixels>\n  </Image>\n</OME>");
    s
}

/// The bytes of a text with a terminator.
pub open spec fn terminated(text: Seq<char>) -> Seq<u8> {
    encode_utf8(text).push(0)
}

/// Writes a description, if it does not fit in an entry, and makes the entry.
pub open spec fn put_description(o: Out, text: Seq<char>) -> (Out, Entry) {
    let data = terminated(text);
    let entry = Entry {
        tag: IMAGE_DESCRIPTION,
        typ: ASCII,
        count: data.len() as u64,
        value: Seq::empty(),
    };
    if data.len() <= 8 {
        (o, Entry { value: data + zeros((8 - data.len()) as nat), ..entry })
    } else {
        let q = pad(o, 8);
        (put(q, data), Entry { value: le_bytes(q.pos as nat, 8), ..entry })
    }
}

/// The eight bytes of a value field that holds `data` itself.
pub fn inline_value(data: &Vec<u8>) -> (r: [u8; 8])
    requires
        data@.len() <= 8,
    ensures
        r@ == data@ + zeros((8 - data@.len()) as nat),
{
    let mut r: [u8; 8] = [0; 8];
    let mut i: usize = 0;
    while i < data.len()
        invariant
            i <= data@.len() <= 8,
            r@.len() == 8,
            forall|j: int| 0 <= j < i ==> r@[j] == data@[j],
            forall|j: int| i <= j < 8 ==> r@[j] == 0,
        decreases data@.len() - i,
    {
        r[i] = data[i];
        i = i + 1;
    }
    assert(r@ =~= data@ + zeros((8 - data@.len()) as nat));
    r
}

/// Makes the entry that holds the OME-XML, and writes the text itself.
pub fn create_ome_description_entry(ome_xml: &str, writer: &mut BigTiffWriter) -> (r: Result<
    IfdEntry,
    Error,
>)
    ensures
        match r {
            Ok(entry) => (final(writer)@, entry@) == put_description(old(writer)@, ome_xml@)
                && final(writer)@.pos <= u64::MAX,
            Err(e) => e == Error::OutputTooLarge && put_description(
                old(writer)@,
                ome_xml@,
            ).0.pos > u64::MAX,
        },
{
    let mut data: Vec<u8> = Vec::new();
    let bytes: &[u8] = ome_xml.as_bytes();
    let mut i: usize = 0;
    while i < bytes.len()
        invariant
            i <= bytes@.len(),
            data@ == bytes@.take(i as int),
        decreases bytes@.len() - i,
    {
        data.push(bytes[i]);
        i = i + 1;
        assert(data@ =~= bytes@.take(i as int));
    }
    data.push(0);
    assert(data@ =~= terminated(ome_xml@));
    let count: u64 = data.len() as u64;
    if data.len() <= 8 {
        let value_or_offset: [u8; 8] = inline_value(&data);
        proof {
            writer.lemma_position();
        }
        return Ok(IfdEntry { tag: IMAGE_DESCRIPTION, typ: ASCII, count, value_or_offset });
    }
    match writer.align(8) {
        Ok(_) => {},
        Err(e) => {
            return Err(e);
        },
    }
    let offset: u64 = match writer.write_bytes(data) {
        Ok(o) => o,
        Err(e) => {
            return Err(e);
        },
    };
    Ok(
        IfdEntry {
            tag: IMAGE_DESCRIPTION,
            typ: ASCII,
            count,
            value_or_offset: u64_bytes(offset),
        },
    )
}

/// The number with a tag is that of the last entry with it.
proof fn lemma_last_number(
    entries: Seq<Entry>,
    tag: u16,
    width: int,
    default: nat,
    k: int,
)
    requires
        well_formed(entries),
        0 <= width <= 8,
    ensures
        is_last_with(entries, tag, tag, k) ==> last_number(entries, tag, width, default)
            == le_value(entries[k].value.take(width)),
        none_with(entries, tag, tag) ==> last_number(entries, tag, width, default) == default,
    decreases entries.len(),
{
    if entries.len() > 0 {
        let front = entries.drop_last();
        assert(entries.last() == entries[entries.len() - 1]);
        assert forall|l: int| 0 <= l < front.len() implies #[trigger] front[l] == entries[l] by {}
        lemma_last_number(front, tag, width, default, k);
    }
}

/// Width and height are the 32-bit words, and the bits per sample the 16-bit word,
/// in the value fields of the last entries with their tags; without such an entry
/// they are 0, 0 and 16.
pub proof fn law_dimensions(entries: Seq<Entry>, k: int)
    requires
        well_formed(entries),
    ensures
        ({
            let (width, height, bits) = dimensions(entries);
            &&& is_last_with(entries, 256, 256, k) ==> width == word32(entries[k].value, 0)
            &&& is_last_with(entries, 257, 257, k) ==> height == word32(entries[k].value, 0)
            &&& is_last_with(entries, 258, 258, k) ==> bits == word16(entries[k].value, 0)
            &&& none_with(entries, 256, 256) ==> width == 0
            &&& none_with(entries, 257, 257) ==> height == 0
            &&& none_with(entries, 258, 258) ==> bits == 16
        }),
{
    lemma_last_number(entries, 256, 4, 0, k);
    lemma_last_number(entries, 257, 4, 0, k);
    lemma_last_number(entries, 258, 2, 16, k);
    if 0 <= k < entries.len() {
        let v = entries[k].value;
        law_words(v, 0);
        assert(v.take(4) =~= v.subrange(0, 4));
        assert(v.take(2) =~= v.subrange(0, 2));
    }
}

/// `part` occurs in the text.
pub open spec fn occurs(text: Seq<char>, part: Seq<char>) -> bool {
    exists|k: int|
        0 <= k && k + part.len() <= text.len() && #[trigger] text.subrange(k, k + part.len())
            == part
}

/// What occurs between other texts occurs.
proof fn lemma_occurs(a: Seq<char>, part: Seq<char>, b: Seq<char>)
    ensures
        occurs(a + part + b, part),
{
    let text = a + part + b;
    let k = a.len() as int;
    assert(text.subrange(k, k + part.len()) =~= part);
}

/// What occurs in a text occurs in a longer one.
proof fn lemma_occurs_more(text: Seq<char>, more: Seq<char>, part: Seq<char>)
    requires
        occurs(text, part),
    ensures
        occurs(text + more, part),
{
    let k = choose|k: int|
        0 <= k && k + part.len() <= text.len() && #[trigger] text.subrange(k, k + part.len())
            == part;
    assert((text + more).subrange(k, k + part.len()) =~= text.subrange(k, k + part.len()));
}

/// A value between quotes, where the text before it ends with a name and the one
/// behind it begins with a quote.
proof fn lemma_attribute(
    a: Seq<char>,
    before: Seq<char>,
    value: Seq<char>,
    behind: Seq<char>,
    name: Seq<char>,
)
    requires
        name.len() <= before.len(),
        before.skip(before.len() - name.len()) == name,
        behind.len() > 0,
        behind[0] == '"',
    ensures
        occurs(a + before + value + behind, name + value + seq!['"']),
{
    let cut = before.len() - name.len();
    let front = a + before.take(cut);
    let part = name + value + seq!['"'];
    lemma_occurs(front, part, behind.skip(1));
    assert(a + before + value + behind =~= front + part + behind.skip(1));
}

/// The XML gives width, height, number of planes and pixel type as attributes.
pub open spec fn shows(xml: Seq<char>, width: nat, height: nat, planes: nat, bits: u16) -> bool {
    &&& occurs(xml, " SizeX=\""@ + decimal(width) + seq!['"'])
    &&& occurs(xml, " SizeY=\""@ + decimal(height) + seq!['"'])
    &&& occurs(xml, " SizeZ=\""@ + decimal(planes) + seq!['"'])
    &&& occurs(xml, " PlaneCount=\""@ + decimal(planes) + seq!['"'])
    &&& bits == 8 ==> occurs(xml, " Type=\"uint8\""@)
    &&& bits == 32 ==> occurs(xml, " Type=\"uint32\""@)
    &&& bits != 8 && bits != 32 ==> occurs(xml, " Type=\"uint16\""@)
}

/// The XML up to the pixel type.
spec fn xml_head() -> Seq<char> {
    "<?xml version=\"1.0\" encoding=\"UTF-8\"?>\n"@
    + "<OME xmlns=\"http://www.openmicroscopy.org/Schemas/OME/2016-06\"\n"@
    + "     xmlns:xsi=\"http://www.w3.org/2001/XMLSchema-instance\"\n"@
    + "     xsi:schemaLocation=\"http://www.openmicroscopy.org/Schemas/OME/2016-06 http://www.openmicroscopy.org/Schemas/OME/2016-06/ome.xsd\">\n"@
    + "  <Image ID=\"Image:0\" Name=\"image\">\n"@
}

/// The XML is about the width, the height, the number of planes and the pixel type
/// that it was made for.
#[verifier::spinoff_prover]
#[verifier::rlimit(30)]
pub proof fn law_ome_xml(width: u32, height: u32, num_z: u64, bits: u16)
    ensures
        shows(
            ome_xml(width, height, num_z, bits),
            width as nat,
            height as nat,
            num_z as nat,
            bits,
        ),
{
    let l0 = "    <Pixels ID=\"Pixels:0\" DimensionOrder=\"XYZCT\" Type=\""@;
    let l1 = "\"\n            SizeX=\""@;
    let l2 = "\" SizeY=\""@;
    let l3 = "\" SizeZ=\""@;
    let l4 = "\" SizeC=\"1\" SizeT=\"1\"\n"@;
    let l5 = "            BigEndian=\"false\" Interleaved=\"false\">\n"@;
    let l6 = "      <Channel ID=\"Channel:0:0\" SamplesPerPixel=\"1\"/>\n"@;
    let l7 = "      <TiffData IFD=\"0\" PlaneCount=\""@;
    let l8 = "\"/>\n    </Pixels>\n  </Image>\n</OME>"@;
    let p = pixel_type(bits);
    let w = decimal(width as nat);
    let h = decimal(height as nat);
    let z = decimal(num_z as nat);
    let s1 = xml_head() + l0 + p + l1;
    let s2 = s1 + w + l2;
    let s3 = s2 + h + l3;
    let s4 = s3 + z + l4;
    let s5 = s4 + l5 + l6;
    let s6 = s5 + l7 + z + l8;
    assert(ome_xml(width, height, num_z, bits) == s6);
    lemma_literal_ends();
    let q = seq!['"'];
    let type_part = " Type=\""@ + p + q;
    let x_part = " SizeX=\""@ + w + q;
    let y_part = " SizeY=\""@ + h + q;
    let z_part = " SizeZ=\""@ + z + q;
    let c_part = " PlaneCount=\""@ + z + q;
    lemma_attribute(xml_head(), l0, p, l1, " Type=\""@);
    lemma_attribute(xml_head() + l0 + p, l1, w, l2, " SizeX=\""@);
    lemma_attribute(s1 + w, l2, h, l3, " SizeY=\""@);
    lemma_attribute(s2 + h, l3, z, l4, " SizeZ=\""@);
    lemma_attribute(s5, l7, z, l8, " PlaneCount=\""@);
    lemma_carry(s1, w, l2, type_part);
    lemma_carry(s2, h, l3, type_part);
    lemma_carry(s3, z, l4, type_part);
    lemma_carry(s4, l5, l6, type_part);
    lemma_carry(s2, h, l3, x_part);
    lemma_carry(s3, z, l4, x_part);
    lemma_carry(s4, l5, l6, x_part);
    lemma_carry(s3, z, l4, y_part);
    lemma_carry(s4, l5, l6, y_part);
    lemma_carry(s4, l5, l6, z_part);
    lemma_carry(s5, l7, z, type_part);
    lemma_carry(s5, l7, z, x_part);
    lemma_carry(s5, l7, z, y_part);
    lemma_carry(s5, l7, z, z_part);
    lemma_occurs_more(s5 + l7 + z, l8, type_part);
    lemma_occurs_more(s5 + l7 + z, l8, x_part);
    lemma_occurs_more(s5 + l7 + z, l8, y_part);
    lemma_occurs_more(s5 + l7 + z, l8, z_part);
    lemma_type_parts();
}

/// What occurs in a text occurs in it with two more behind it.
proof fn lemma_carry(text: Seq<char>, a: Seq<char>, b: Seq<char>, part: Seq<char>)
    requires
        occurs(text, part),
    ensures
        occurs(text + a + b, part),
{
    lemma_occurs_more(text, a, part);
    lemma_occurs_more(text + a, b, part);
}

/// How the fixed parts of the XML begin and end.
proof fn lemma_literal_ends()
    ensures
        ({
            let l0 = "    <Pixels ID=\"Pixels:0\" DimensionOrder=\"XYZCT\" Type=\""@;
            let l1 = "\"\n            SizeX=\""@;
            let l2 = "\" SizeY=\""@;
            let l3 = "\" SizeZ=\""@;
            let l4 = "\" SizeC=\"1\" SizeT=\"1\"\n"@;
            let l7 = "      <TiffData IFD=\"0\" PlaneCount=\""@;
            let l8 = "\"/>\n    </Pixels>\n  </Image>\n</OME>"@;
            &&& l0.len() >= 7 && l0.skip(l0.len() - 7) == " Type=\""@ && " Type=\""@.len() == 7
            &&& l1.len() >= 8 && l1.skip(l1.len() - 8) == " SizeX=\""@ && " SizeX=\""@.len() == 8
            &&& l2.len() >= 8 && l2.skip(l2.len() - 8) == " SizeY=\""@ && " SizeY=\""@.len() == 8
            &&& l3.len() >= 8 && l3.skip(l3.len() - 8) == " SizeZ=\""@ && " SizeZ=\""@.len() == 8
            &&& l7.len() >= 13 && l7.skip(l7.len() - 13) == " PlaneCount=\""@
                && " PlaneCount=\""@.len() == 13
            &&& l1[0] == '"' && l2[0] == '"' && l3[0] == '"' && l4.len() > 0 && l4[0] == '"'
                && l8.len() > 0 && l8[0] == '"'
        }),
{
    reveal_strlit("    <Pixels ID=\"Pixels:0\" DimensionOrder=\"XYZCT\" Type=\"");
    reveal_strlit("\"\n            SizeX=\"");
    reveal_strlit("\" SizeY=\"");
    reveal_strlit("\" SizeZ=\"");
    reveal_strlit("\" SizeC=\"1\" SizeT=\"1\"\n");
    reveal_strlit("      <TiffData IFD=\"0\" PlaneCount=\"");
    reveal_strlit("\"/>\n    </Pixels>\n  </Image>\n</OME>");
    reveal_strlit(" Type=\"");
    reveal_strlit(" SizeX=\"");
    reveal_strlit(" SizeY=\"");
    reveal_strlit(" SizeZ=\"");
    reveal_strlit(" PlaneCount=\"");
    let l0 = "    <Pixels ID=\"Pixels:0\" DimensionOrder=\"XYZCT\" Type=\""@;
    let l1 = "\"\n            SizeX=\""@;
    let l2 = "\" SizeY=\""@;
    let l3 = "\" SizeZ=\""@;
    let l7 = "      <TiffData IFD=\"0\" PlaneCount=\""@;
    assert(l0.skip(l0.len() - 7) =~= " Type=\""@);
    assert(l1.skip(l1.len() - 8) =~= " SizeX=\""@);
    assert(l2.skip(l2.len() - 8) =~= " SizeY=\""@);
    assert(l3.skip(l3.len() - 8) =~= " SizeZ=\""@);
    assert(l7.skip(l7.len() - 13) =~= " PlaneCount=\""@);
}

/// The pixel types as attributes.
proof fn lemma_type_parts()
    ensures
        " Type=\""@ + "uint8"@ + seq!['"'] == " Type=\"uint8\""@,
        " Type=\""@ + "uint16"@ + seq!['"'] == " Type=\"uint16\""@,
        " Type=\""@ + "uint32"@ + seq!['"'] == " Type=\"uint32\""@,
{
    reveal_strlit(" Type=\"");
    reveal_strlit("uint8");
    reveal_strlit("uint16");
    reveal_strlit("uint32");
    reveal_strlit(" Type=\"uint8\"");
    reveal_strlit(" Type=\"uint16\"");
    reveal_strlit(" Type=\"uint32\"");
    assert(" Type=\""@ + "uint8"@ + seq!['"'] =~= " Type=\"uint8\""@);
    assert(" Type=\""@ + "uint16"@ + seq!['"'] =~= " Type=\"uint16\""@);
    assert(" Type=\""@ + "uint32"@ + seq!['"'] =~= " Type=\"uint32\""@);
}

/// Apart from the four numbers and the pixel type nothing in the XML varies: two
/// descriptions are as long as each other but for these.
pub proof fn law_ome_xml_frame(a: (u32, u32, u64, u16), b: (u32, u32, u64, u16))
    ensures
        ome_xml(a.0, a.1, a.2, a.3).len() - decimal(a.0 as nat).len() - decimal(a.1 as nat).len()
            - 2 * decimal(a.2 as nat).len() - pixel_type(a.3).len() == ome_xml(
            b.0,
            b.1,
            b.2,
            b.3,
        ).len() - decimal(b.0 as nat).len() - decimal(b.1 as nat).len() - 2 * decimal(
            b.2 as nat,
        ).len() - pixel_type(b.3).len(),
{
}

/// A text with a pixel type and four numbers in its gaps.
pub open spec fn filled(parts: Seq<Seq<char>>, a: (u32, u32, u64, u16)) -> Seq<char> {
    parts[0] + (if a.3 == 8 {
        "uint8"@
    } else if a.3 == 32 {
        "uint32"@
    } else {
        "uint16"@
    }) + parts[1] + decimal(a.0 as nat) + parts[2] + decimal(a.1 as nat) + parts[3] + decimal(
        a.2 as nat,
    ) + parts[4] + decimal(a.2 as nat) + parts[5]
}

/// Two descriptions differ in the pixel type and the numbers only.
#[verifier::spinoff_prover]
#[verifier::rlimit(30)]
pub proof fn law_ome_xml_pattern(a: (u32, u32, u64, u16), b: (u32, u32, u64, u16))
    ensures
        exists|parts: Seq<Seq<char>>|
            parts.len() == 6 && ome_xml(a.0, a.1, a.2, a.3) == #[trigger] filled(parts, a)
                && ome_xml(b.0, b.1, b.2, b.3) == filled(parts, b),
{
    let l0 = "    <Pixels ID=\"Pixels:0\" DimensionOrder=\"XYZCT\" Type=\""@;
    let l4 = "\" SizeC=\"1\" SizeT=\"1\"\n"@;
    let l5 = "            BigEndian=\"false\" Interleaved=\"false\">\n"@;
    let l6 = "      <Channel ID=\"Channel:0:0\" SamplesPerPixel=\"1\"/>\n"@;
    let l7 = "      <TiffData IFD=\"0\" PlaneCount=\""@;
    let parts = seq![
        xml_head() + l0,
        "\"\n            SizeX=\""@,
        "\" SizeY=\""@,
        "\" SizeZ=\""@,
        l4 + l5 + l6 + l7,
        "\"/>\n    </Pixels>\n  </Image>\n</OME>"@,
    ];
    lemma_pattern(a);
    lemma_pattern(b);
    assert(ome_xml(a.0, a.1, a.2, a.3) == filled(parts, a));
    assert(ome_xml(b.0, b.1, b.2, b.3) == filled(parts, b));
}

/// The pattern of a description.
proof fn lemma_pattern(a: (u32, u32, u64, u16))
    ensures
        ({
            let l0 = "    <Pixels ID=\"Pixels:0\" DimensionOrder=\"XYZCT\" Type=\""@;
            let l4 = "\" SizeC=\"1\" SizeT=\"1\"\n"@;
            let l5 = "            BigEndian=\"false\" Interleaved=\"false\">\n"@;
            let l6 = "      <Channel ID=\"Channel:0:0\" SamplesPerPixel=\"1\"/>\n"@;
            let l7 = "      <TiffData IFD=\"0\" PlaneCount=\""@;
            let parts = seq![
                xml_head() + l0,
                "\"\n            SizeX=\""@,
                "\" SizeY=\""@,
                "\" SizeZ=\""@,
                l4 + l5 + l6 + l7,
                "\"/>\n    </Pixels>\n  </Image>\n</OME>"@,
            ];
            ome_xml(a.0, a.1, a.2, a.3) == filled(parts, a)
        }),
{
    let l4 = "\" SizeC=\"1\" SizeT=\"1\"\n"@;
    let l5 = "            BigEndian=\"false\" Interleaved=\"false\">\n"@;
    let l6 = "      <Channel ID=\"Channel:0:0\" SamplesPerPixel=\"1\"/>\n"@;
    let l7 = "      <TiffData IFD=\"0\" PlaneCount=\""@;
    let s = xml_head() + "    <Pixels ID=\"Pixels:0\" DimensionOrder=\"XYZCT\" Type=\""@
        + pixel_type(a.3) + "\"\n            SizeX=\""@ + decimal(a.0 as nat) + "\" SizeY=\""@
        + decimal(a.1 as nat) + "\" SizeZ=\""@ + decimal(a.2 as nat);
    assert(s + l4 + l5 + l6 + l7 =~= s + (l4 + l5 + l6 + l7));
}

} // verus!
