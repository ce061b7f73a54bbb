//! Entries of an image file directory.
use vstd::prelude::*;

use crate::bytes::{law_le_value_of_bytes, law_words, le_at, le_bytes, le_value, lemma_le_bytes_len,
    lemma_le_limits, lemma_le_value_bound, word16, word64, write_u16, write_u64};

verus! {

/// Tag of the entry that locates the strips.
pub const STRIP_OFFSETS: u16 = 273;

/// Tag of the entry that holds the sizes of the strips.
pub const STRIP_BYTE_COUNTS: u16 = 279;

/// Tag of the entry that locates the tiles.
pub const TILE_OFFSETS: u16 = 324;

/// Tag of the entry that holds the sizes of the tiles.
pub const TILE_BYTE_COUNTS: u16 = 325;

/// Field type of byte strings.
pub const ASCII: u16 = 2;

/// Field type of 64-bit integers.
pub const LONG8: u16 = 16;

/// One entry of an IFD. The last field holds the value itself where that takes
/// at most eight bytes, else the place of the value in the file.
#[derive(Clone, Copy, Debug)]
pub struct IfdEntry {
    pub tag: u16,
    pub typ: u16,
    pub count: u64,
    pub value_or_offset: [u8; 8],
}

/// The mathematical content of an entry.
#[verifier::ext_equal]
pub struct Entry {
    pub tag: u16,
    pub typ: u16,
    pub count: u64,
    pub value: Seq<u8>,
}

impl View for IfdEntry {
    type V = Entry;

    open spec fn view(&self) -> Entry {
        Entry {
            tag: self.tag,
            typ: self.typ,
            count: self.count,
            value: self.value_or_offset@,
        }
    }
}

/// The contents of a list of entries.
pub open spec fn entry_views(entries: Seq<IfdEntry>) -> Seq<Entry> {
    entries.map_values(|e: IfdEntry| e@)
}

/// Bytes per element of a field type; a type that is not known counts as one.
pub open spec fn element_size(typ: u16) -> nat {
    if typ == 3 || typ == 8 {
        2
    } else if typ == 4 || typ == 9 || typ == 11 {
        4
    } else if typ == 5 || typ == 10 || typ == 12 || typ == 16 || typ == 17 || typ == 18 {
        8
    } else {
        1
    }
}

impl Entry {
    /// Bytes that the value takes.
    pub open spec fn size(self) -> nat {
        self.count as nat * element_size(self.typ)
    }

    /// Whether the size can be a position in a file at all.
    pub open spec fn fits(self) -> bool {
        self.size() <= u64::MAX
    }

    /// Whether the value stands in the entry itself.
    pub open spec fn inline(self) -> bool {
        self.size() <= 8
    }

    /// The place of a value that does not stand in the entry.
    pub open spec fn offset(self) -> nat {
        le_value(self.value)
    }

    /// Whether the entry locates strips or tiles.
    pub open spec fn locates(self) -> bool {
        self.tag == STRIP_OFFSETS || self.tag == TILE_OFFSETS
    }

    /// Whether the entry holds the sizes of strips or tiles.
    pub open spec fn measures(self) -> bool {
        self.tag == STRIP_BYTE_COUNTS || self.tag == TILE_BYTE_COUNTS
    }
}

/// Bytes per element of a field type.
fn type_size(typ: u16) -> (n: u64)
    ensures
        n == element_size(typ),
        1 <= n <= 8,
{
    match typ {
        3 | 8 => 2,
        4 | 9 | 11 => 4,
        5 | 10 | 12 => 8,
        16 | 17 => 8,
        18 => 8,
        _ => 1,
    }
}

impl IfdEntry {
    /// Whether `value_size` can be computed.
    pub fn value_fits(&self) -> (r: bool)
        ensures
            r == self@.fits(),
    {
        let size: u64 = type_size(self.typ);
        match self.count.checked_mul(size) {
            Some(_) => true,
            None => false,
        }
    }

    /// Bytes that the value takes.
    pub fn value_size(&self) -> (n: u64)
        requires
            self@.fits(),
        ensures
            n == self@.size(),
    {
        let element_size: u64 = type_size(self.typ);
        self.count * element_size
    }

    /// Whether the value stands in the entry itself.
    pub fn is_inline(&self) -> (r: bool)
        requires
            self@.fits(),
        ensures
            r == self@.inline(),
    {
        self.value_size() <= 8
    }

    /// The place of a value that does not stand in the entry.
    pub fn offset(&self) -> (n: u64)
        ensures
            n == self@.offset(),
    {
        let v: u64 = le_at(&self.value_or_offset, 0, 8);
        assert(self.value_or_offset@.subrange(0, 8) =~= self.value_or_offset@);
        v
    }
}

/// The 20 bytes of an entry in a file.
pub open spec fn encode_entry(e: Entry) -> Seq<u8> {
    le_bytes(e.tag as nat, 2) + le_bytes(e.typ as nat, 2) + le_bytes(e.count as nat, 8) + e.value
}

/// The entry that 20 bytes of a file stand for.
pub open spec fn decode_entry(b: Seq<u8>) -> Entry {
    Entry {
        tag: le_value(b.subrange(0, 2)) as u16,
        typ: le_value(b.subrange(2, 4)) as u16,
        count: le_value(b.subrange(4, 12)) as u64,
        value: b.subrange(12, 20),
    }
}

/// The bytes of entries one after the other.
pub open spec fn encode_entries(s: Seq<Entry>) -> Seq<u8>
    decreases s.len(),
{
    if s.len() == 0 {
        Seq::empty()
    } else {
        encode_entries(s.drop_last()) + encode_entry(s.last())
    }
}

/// The bytes of an IFD: number of entries, entries, place of the next IFD.
pub open spec fn encode_ifd(s: Seq<Entry>, next: nat) -> Seq<u8> {
    le_bytes(s.len(), 8) + encode_entries(s) + le_bytes(next, 8)
}

/// The first `n` entries of a table of entries.
pub open spec fn decode_entries(table: Seq<u8>, n: nat) -> Seq<Entry> {
    Seq::new(n, |i: int| decode_entry(table.subrange(20 * i, 20 * i + 20)))
}

/// Every value field is eight bytes wide.
pub open spec fn well_formed(s: Seq<Entry>) -> bool {
    forall|i: int| 0 <= i < s.len() ==> (#[trigger] s[i]).value.len() == 8
}

/// An entry takes 20 bytes.
pub proof fn lemma_encode_entry_len(e: Entry)
    requires
        e.value.len() == 8,
    ensures
        encode_entry(e).len() == 20,
{
    lemma_le_bytes_len(e.tag as nat, 2);
    lemma_le_bytes_len(e.typ as nat, 2);
    lemma_le_bytes_len(e.count as nat, 8);
}

/// Reading back the bytes of an entry gives that entry.
pub proof fn law_decode_encoded_entry(e: Entry)
    requires
        e.value.len() == 8,
    ensures
        decode_entry(encode_entry(e)) == e,
{
    lemma_encode_entry_len(e);
    lemma_le_limits();
    lemma_le_bytes_len(e.tag as nat, 2);
    lemma_le_bytes_len(e.typ as nat, 2);
    lemma_le_bytes_len(e.count as nat, 8);
    law_le_value_of_bytes(e.tag as nat, 2);
    law_le_value_of_bytes(e.typ as nat, 2);
    law_le_value_of_bytes(e.count as nat, 8);
    let b = encode_entry(e);
    assert(b.subrange(0, 2) =~= le_bytes(e.tag as nat, 2));
    assert(b.subrange(2, 4) =~= le_bytes(e.typ as nat, 2));
    assert(b.subrange(4, 12) =~= le_bytes(e.count as nat, 8));
    assert(b.subrange(12, 20) =~= e.value);
}

/// Entries take 20 bytes each and stand in order.
pub proof fn lemma_encode_entries(s: Seq<Entry>)
    requires
        well_formed(s),
    ensures
        encode_entries(s).len() == 20 * s.len(),
        forall|i: int|
            0 <= i < s.len() ==> encode_entries(s).subrange(20 * i, 20 * i + 20) == encode_entry(
                #[trigger] s[i],
            ),
    decreases s.len(),
{
    if s.len() > 0 {
        let front = s.drop_last();
        let bytes = encode_entries(s);
        assert forall|i: int| 0 <= i < front.len() implies (#[trigger] front[i]).value.len()
            == 8 by {
            assert(front[i] == s[i]);
        }
        lemma_encode_entries(front);
        lemma_encode_entry_len(s.last());
        assert forall|i: int| 0 <= i < s.len() implies bytes.subrange(20 * i, 20 * i + 20)
            == encode_entry(#[trigger] s[i]) by {
            if i < front.len() {
                assert(front[i] == s[i]);
                assert(bytes.subrange(20 * i, 20 * i + 20) =~= encode_entries(front).subrange(
                    20 * i,
                    20 * i + 20,
                ));
            } else {
                assert(bytes.subrange(20 * i, 20 * i + 20) =~= encode_entry(s.last()));
            }
        }
    }
}

/// Reading back a table of entries gives those entries.
pub proof fn law_decode_encoded_entries(s: Seq<Entry>, table: Seq<u8>)
    requires
        well_formed(s),
        20 * s.len() <= table.len(),
        table.take(20 * s.len() as int) == encode_entries(s),
    ensures
        decode_entries(table, s.len()) == s,
{
    lemma_encode_entries(s);
    assert forall|i: int| 0 <= i < s.len() implies #[trigger] decode_entries(table, s.len())[i]
        == s[i] by {
        assert(table.subrange(20 * i, 20 * i + 20) =~= encode_entries(s).subrange(
            20 * i,
            20 * i + 20,
        ));
        law_decode_encoded_entry(s[i]);
    }
    assert(decode_entries(table, s.len()) =~= s);
}

/// Decodes the entry that stands at `pos`.
pub fn parse_entry(data: &[u8], pos: usize) -> (e: IfdEntry)
    requires
        pos + 20 <= data@.len(),
    ensures
        e@ == decode_entry(data@.subrange(pos as int, pos + 20)),
{
    let len: usize = data.len();
    let ghost b = data@.subrange(pos as int, pos + 20);
    proof {
        lemma_le_limits();
        lemma_le_value_bound(b.subrange(0, 2));
        lemma_le_value_bound(b.subrange(2, 4));
        assert(b.subrange(0, 2) =~= data@.subrange(pos as int, pos + 2));
        assert(b.subrange(2, 4) =~= data@.subrange(pos + 2, pos + 4));
        assert(b.subrange(4, 12) =~= data@.subrange(pos + 4, pos + 12));
    }
    let tag: u16 = le_at(data, pos, 2) as u16;
    let typ: u16 = le_at(data, pos + 2, 2) as u16;
    let count: u64 = le_at(data, pos + 4, 8);
    let value_or_offset: [u8; 8] = [
        data[pos + 12],
        data[pos + 13],
        data[pos + 14],
        data[pos + 15],
        data[pos + 16],
        data[pos + 17],
        data[pos + 18],
        data[pos + 19],
    ];
    assert(value_or_offset@ =~= b.subrange(12, 20));
    IfdEntry { tag, typ, count, value_or_offset }
}

/// Appends the bytes of an entry.
pub fn write_entry(w: &mut Vec<u8>, e: &IfdEntry)
    ensures
        final(w)@ == old(w)@ + encode_entry(e@),
{
    let ghost start = w@;
    write_u16(w, e.tag);
    write_u16(w, e.typ);
    write_u64(w, e.count);
    let mut i: usize = 0;
    let ghost head = w@;
    while i < 8
        invariant
            i <= 8,
            w@ == head + e.value_or_offset@.subrange(0, i as int),
        decreases 8 - i,
    {
        w.push(e.value_or_offset[i]);
        i = i + 1;
        assert(w@ =~= head + e.value_or_offset@.subrange(0, i as int));
    }
    assert(w@ =~= start + encode_entry(e@));
}

/// The field types have the widths that TIFF gives them.
pub proof fn law_element_sizes(typ: u16)
    ensures
        typ == 1 || typ == 2 || typ == 6 || typ == 7 ==> element_size(typ) == 1,
        typ == 3 || typ == 8 ==> element_size(typ) == 2,
        typ == 4 || typ == 9 || typ == 11 ==> element_size(typ) == 4,
        typ == 5 || typ == 10 || typ == 12 || 16 <= typ <= 18 ==> element_size(typ) == 8,
        typ == 0 || 13 <= typ <= 15 || typ > 18 ==> element_size(typ) == 1,
{
}

/// What an entry says: how large its value is, whether it stands in the entry, and
/// if not, where; and whether it is about image data.
pub proof fn law_entry(e: Entry)
    requires
        e.value.len() == 8,
    ensures
        e.size() == e.count * element_size(e.typ),
        e.fits() <==> e.size() <= 0xffff_ffff_ffff_ffff,
        e.inline() <==> e.size() <= 8,
        e.offset() == word64(e.value, 0),
        e.locates() <==> e.tag == 273 || e.tag == 324,
        e.measures() <==> e.tag == 279 || e.tag == 325,
{
    law_words(e.value, 0);
    assert(e.value.subrange(0, 8) =~= e.value);
}

/// An entry has its tag, its type, its count and its value field one after the
/// other in 2, 2, 8 and 8 bytes.
pub proof fn law_entry_bytes(b: Seq<u8>)
    requires
        b.len() == 20,
    ensures
        decode_entry(b).tag == word16(b, 0),
        decode_entry(b).typ == word16(b, 2),
        decode_entry(b).count == word64(b, 4),
        decode_entry(b).value == b.subrange(12, 20),
{
    law_words(b, 0);
    law_words(b, 2);
    law_words(b, 4);
}

} // verus!
