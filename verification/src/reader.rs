//! Reading the structure of a BigTIFF file from the byte ranges at hand.
use vstd::prelude::*;

use crate::bytes::{law_words, le_at, le_value, read_u16, read_u64, word16, word64};
use crate::entry::{decode_entries, decode_entry, element_size, entry_views, law_entry,
    law_entry_bytes, parse_entry, well_formed, Entry, IfdEntry, STRIP_BYTE_COUNTS, STRIP_OFFSETS,
    TILE_BYTE_COUNTS, TILE_OFFSETS};
use crate::error::Error;
use crate::offsets::{number_width, numbers, parse_offsets};

verus! {

/// Version word of a BigTIFF file.
pub const BIGTIFF_MAGIC: u16 = 43;

/// Byte order mark of a little-endian file.
pub const LITTLE_ENDIAN: u16 = 0x4949;

/// A byte range of the file that is at hand.
pub struct Chunk {
    pub offset: u64,
    pub data: Vec<u8>,
}

/// The mathematical content of a chunk.
#[verifier::ext_equal]
pub struct Extent {
    pub start: u64,
    pub bytes: Seq<u8>,
}

impl View for Chunk {
    type V = Extent;

    open spec fn view(&self) -> Extent {
        Extent { start: self.offset, bytes: self.data@ }
    }
}

/// A reader over the byte ranges of a file that it was given so far.
pub struct BigTiffReader {
    pub chunks: Vec<Chunk>,
}

impl View for BigTiffReader {
    type V = Seq<Extent>;

    open spec fn view(&self) -> Seq<Extent> {
        self.chunks@.map_values(|c: Chunk| c@)
    }
}

/// Whether an extent holds `len` bytes from `offset` on.
pub open spec fn covers(e: Extent, offset: int, len: int) -> bool {
    e.start <= offset && offset + len <= e.start + e.bytes.len()
}

/// The bytes of a range, from the first extent that holds all of it.
pub open spec fn fetch(store: Seq<Extent>, offset: int, len: int) -> Option<Seq<u8>>
    decreases store.len(),
{
    if store.len() == 0 {
        None
    } else if covers(store[0], offset, len) {
        Some(
            store[0].bytes.subrange(offset - store[0].start, offset - store[0].start + len),
        )
    } else {
        fetch(store.drop_first(), offset, len)
    }
}

/// All of a file at hand.
pub open spec fn whole(file: Seq<u8>) -> Seq<Extent> {
    seq![Extent { start: 0, bytes: file }]
}

/// What is at hand when all of a file is.
pub proof fn lemma_fetch_whole(file: Seq<u8>, offset: int, len: int)
    requires
        0 <= offset,
    ensures
        fetch(whole(file), offset, len) == if offset + len <= file.len() {
            Some(file.subrange(offset, offset + len))
        } else {
            None
        },
{
    let store = whole(file);
    assert(fetch(store.drop_first(), offset, len) is None);
}

/// The bytes of a range, or the request for them.
pub open spec fn read_at(store: Seq<Extent>, offset: int, len: int) -> Result<Seq<u8>, Error> {
    match fetch(store, offset, len) {
        Some(b) => Ok(b),
        None => Err(Error::NeedBytes { offset: offset as u64, len: len as u64 }),
    }
}

/// What the first bytes of a file say of its format. Each word is judged before
/// the next one is read.
pub open spec fn header_check(head: Seq<u8>) -> Result<(), Error> {
    if head.len() < 2 {
        Err(Error::UnexpectedEof)
    } else if le_value(head.subrange(0, 2)) != LITTLE_ENDIAN {
        Err(Error::NotLittleEndian)
    } else if head.len() < 4 {
        Err(Error::UnexpectedEof)
    } else if le_value(head.subrange(2, 4)) != BIGTIFF_MAGIC {
        Err(Error::NotBigTiff { magic: le_value(head.subrange(2, 4)) as u16 })
    } else if head.len() < 6 {
        Err(Error::UnexpectedEof)
    } else if le_value(head.subrange(4, 6)) != 8 {
        Err(Error::InvalidOffsetSize)
    } else if head.len() < 8 {
        Err(Error::UnexpectedEof)
    } else {
        Ok(())
    }
}

/// The place of the first IFD.
pub open spec fn first_ifd(store: Seq<Extent>) -> Result<u64, Error> {
    match read_at(store, 8, 8) {
        Ok(b) => Ok(le_value(b) as u64),
        Err(e) => Err(e),
    }
}

/// The entries of the IFD at `offset`, and the place of the next IFD.
pub open spec fn ifd_at(store: Seq<Extent>, offset: u64) -> Result<(Seq<Entry>, u64), Error> {
    match read_at(store, offset as int, 8) {
        Err(e) => Err(e),
        Ok(b) => {
            let n = le_value(b);
            if offset + 8 > u64::MAX || 20 * n + 8 > u64::MAX {
                Err(Error::TooManyEntries)
            } else {
                match read_at(store, offset + 8, (20 * n + 8) as int) {
                    Err(e) => Err(e),
                    Ok(t) => Ok(
                        (
                            decode_entries(t, n),
                            le_value(t.subrange(20 * n as int, 20 * n as int + 8)) as u64,
                        ),
                    ),
                }
            }
        },
    }
}

/// The bytes of the value of an entry.
pub open spec fn value_data(store: Seq<Extent>, e: Entry) -> Result<Seq<u8>, Error> {
    if !e.fits() {
        Err(Error::ValueTooLarge)
    } else if e.inline() {
        Ok(e.value.take(e.size() as int))
    } else {
        read_at(store, e.offset() as int, e.size() as int)
    }
}

/// The places and the sizes of the image data of an IFD. Where several entries
/// give the same thing, the last one counts.
pub open spec fn blocks(store: Seq<Extent>, entries: Seq<Entry>) -> Result<
    (Seq<u64>, Seq<u64>),
    Error,
>
    decreases entries.len(),
{
    if entries.len() == 0 {
        Ok((Seq::empty(), Seq::empty()))
    } else {
        let e = entries.last();
        match blocks(store, entries.drop_last()) {
            Err(x) => Err(x),
            Ok((offsets, counts)) => if e.locates() {
                match value_data(store, e) {
                    Err(x) => Err(x),
                    Ok(d) => Ok((numbers(d, e.typ, e.count as nat), counts)),
                }
            } else if e.measures() {
                match value_data(store, e) {
                    Err(x) => Err(x),
                    Ok(d) => Ok((offsets, numbers(d, e.typ, e.count as nat))),
                }
            } else {
                Ok((offsets, counts))
            },
        }
    }
}

/// The bytes `start..start + len` of a vector.
fn copy_range(data: &Vec<u8>, start: usize, len: usize) -> (r: Vec<u8>)
    requires
        start + len <= data@.len(),
    ensures
        r@ == data@.subrange(start as int, start + len),
{
    let mut r: Vec<u8> = Vec::with_capacity(len);
    let mut i: usize = 0;
    while i < len
        invariant
            i <= len,
            start + len <= data.len(),
            r@ == data@.subrange(start as int, start + i),
        decreases len - i,
    {
        r.push(data[start + i]);
        i = i + 1;
        assert(r@ =~= data@.subrange(start as int, start + i));
    }
    r
}

impl BigTiffReader {
    /// A reader for the file that starts with `head`, which are its first eight
    /// bytes, or all of its bytes where it has fewer.
    pub fn open(head: &[u8]) -> (r: Result<BigTiffReader, Error>)
        ensures
            match r {
                Ok(reader) => header_check(head@) == Ok::<(), Error>(()) && reader@
                    == Seq::<Extent>::empty(),
                Err(e) => header_check(head@) == Err::<(), Error>(e),
            },
    {
        let byte_order: u16 = match read_u16(head, 0) {
            Ok(v) => v,
            Err(e) => {
                return Err(e);
            },
        };
        if byte_order != LITTLE_ENDIAN {
            return Err(Error::NotLittleEndian);
        }
        let magic: u16 = match read_u16(head, 2) {
            Ok(v) => v,
            Err(e) => {
                return Err(e);
            },
        };
        if magic != BIGTIFF_MAGIC {
            return Err(Error::NotBigTiff { magic });
        }
        let offset_size: u16 = match read_u16(head, 4) {
            Ok(v) => v,
            Err(e) => {
                return Err(e);
            },
        };
        if offset_size != 8 {
            return Err(Error::InvalidOffsetSize);
        }
        match read_u16(head, 6) {
            Ok(_) => {},
            Err(e) => {
                return Err(e);
            },
        }
        let reader = BigTiffReader { chunks: Vec::new() };
        assert(reader@ =~= Seq::<Extent>::empty());
        Ok(reader)
    }

    /// Puts the bytes of the file from `offset` on at the reader's disposal.
    pub fn supply(&mut self, offset: u64, data: Vec<u8>)
        ensures
            final(self)@ == old(self)@.push(Extent { start: offset, bytes: data@ }),
    {
        self.chunks.push(Chunk { offset, data });
        assert(self@ =~= old(self)@.push(Extent { start: offset, bytes: data@ }));
    }

    /// Drops all bytes that were supplied.
    pub fn forget(&mut self)
        ensures
            final(self)@ == Seq::<Extent>::empty(),
    {
        self.chunks = Vec::new();
        assert(self@ =~= Seq::<Extent>::empty());
    }

    /// The bytes of a range, or the request for them.
    pub fn read_range(&self, offset: u64, len: u64) -> (r: Result<Vec<u8>, Error>)
        ensures
            match r {
                Ok(data) => read_at(self@, offset as int, len as int) == Ok::<Seq<u8>, Error>(data@),
                Err(e) => read_at(self@, offset as int, len as int) == Err::<Seq<u8>, Error>(e),
            },
    {
        let mut i: usize = 0;
        assert(self@.skip(0) =~= self@);
        while i < self.chunks.len()
            invariant
                i <= self.chunks@.len(),
                fetch(self@, offset as int, len as int) == fetch(
                    self@.skip(i as int),
                    offset as int,
                    len as int,
                ),
            decreases self.chunks@.len() - i,
        {
            let ghost rest = self@.skip(i as int);
            assert(rest[0] == self.chunks@[i as int]@);
            let have: u64 = self.chunks[i].data.len() as u64;
            let start: u64 = self.chunks[i].offset;
            if start <= offset && offset - start <= have && len <= have - (offset - start) {
                return Ok(
                    copy_range(&self.chunks[i].data, (offset - start) as usize, len as usize),
                );
            }
            assert(rest.drop_first() =~= self@.skip(i + 1));
            i = i + 1;
        }
        Err(Error::NeedBytes { offset, len })
    }

    /// The place of the first IFD; zero where there is none.
    pub fn first_ifd_offset(&self) -> (r: Result<u64, Error>)
        ensures
            r == first_ifd(self@),
    {
        match self.read_range(8, 8) {
            Ok(data) => {
                proof {
                    lemma_fetch_len(self@, 8, 8);
                    assert(data@.subrange(0, 8) =~= data@);
                }
                read_u64(&data, 0)
            },
            Err(e) => Err(e),
        }
    }

    /// The entries of the IFD at `offset`, and the place of the next IFD.
    pub fn read_ifd(&self, offset: u64) -> (r: Result<(Vec<IfdEntry>, u64), Error>)
        ensures
            match r {
                Ok((entries, next)) => ifd_at(self@, offset) == Ok::<(Seq<Entry>, u64), Error>(
                    (entry_views(entries@), next),
                ),
                Err(e) => ifd_at(self@, offset) == Err::<(Seq<Entry>, u64), Error>(e),
            },
    {
        let head: Vec<u8> = match self.read_range(offset, 8) {
            Ok(d) => d,
            Err(e) => {
                return Err(e);
            },
        };
        proof {
            lemma_fetch_len(self@, offset as int, 8);
            assert(head@.subrange(0, 8) =~= head@);
        }
        let num_entries: u64 = le_at(&head, 0, 8);
        if offset > u64::MAX - 8 || num_entries > (u64::MAX - 8) / 20 {
            return Err(Error::TooManyEntries);
        }
        let table: Vec<u8> = match self.read_range(offset + 8, num_entries * 20 + 8) {
            Ok(d) => d,
            Err(e) => {
                return Err(e);
            },
        };
        proof {
            lemma_fetch_len(self@, offset + 8, num_entries * 20 + 8);
        }
        let len: usize = table.len();
        let n: usize = num_entries as usize;
        let mut entries: Vec<IfdEntry> = Vec::with_capacity(n);
        let mut i: usize = 0;
        while i < n
            invariant
                i <= n,
                n * 20 + 8 == len == table@.len(),
                entries@.len() == i,
                forall|j: int|
                    0 <= j < i ==> (#[trigger] entries@[j])@ == decode_entry(
                        table@.subrange(20 * j, 20 * j + 20),
                    ),
            decreases n - i,
        {
            entries.push(parse_entry(&table, i * 20));
            i = i + 1;
        }
        assert(entry_views(entries@) =~= decode_entries(table@, num_entries as nat));
        let next_ifd: u64 = le_at(&table, n * 20, 8);
        Ok((entries, next_ifd))
    }

    /// The bytes of the value of an entry.
    pub fn read_value_data(&self, entry: &IfdEntry) -> (r: Result<Vec<u8>, Error>)
        ensures
            match r {
                Ok(data) => value_data(self@, entry@) == Ok::<Seq<u8>, Error>(data@),
                Err(e) => value_data(self@, entry@) == Err::<Seq<u8>, Error>(e),
            },
    {
        if !entry.value_fits() {
            return Err(Error::ValueTooLarge);
        }
        if entry.is_inline() {
            let size: usize = entry.value_size() as usize;
            let mut data: Vec<u8> = Vec::with_capacity(size);
            let mut i: usize = 0;
            while i < size
                invariant
                    i <= size <= 8,
                    data@ == entry.value_or_offset@.take(i as int),
                decreases size - i,
            {
                data.push(entry.value_or_offset[i]);
                i = i + 1;
                assert(data@ =~= entry.value_or_offset@.take(i as int));
            }
            Ok(data)
        } else {
            self.read_range(entry.offset(), entry.value_size())
        }
    }
}

/// A range that was found is as long as was asked for.
pub proof fn lemma_fetch_len(store: Seq<Extent>, offset: int, len: int)
    requires
        0 <= len,
    ensures
        fetch(store, offset, len) matches Some(b) ==> b.len() == len,
    decreases store.len(),
{
    if store.len() > 0 && !covers(store[0], offset, len) {
        lemma_fetch_len(store.drop_first(), offset, len);
    }
}

/// The entries of an IFD have value fields of eight bytes.
pub proof fn lemma_ifd_well_formed(store: Seq<Extent>, offset: u64)
    ensures
        ifd_at(store, offset) matches Ok((entries, next)) ==> well_formed(entries),
{
    lemma_fetch_len(store, offset as int, 8);
    if let Some(b) = fetch(store, offset as int, 8) {
        lemma_fetch_len(store, offset + 8, (20 * le_value(b) + 8) as int);
    }
}

/// The value of an entry has the size that the entry gives.
pub proof fn lemma_value_len(store: Seq<Extent>, e: Entry)
    requires
        e.value.len() == 8,
    ensures
        value_data(store, e) matches Ok(d) ==> d.len() == e.size(),
{
    if e.fits() && !e.inline() {
        lemma_fetch_len(store, e.offset() as int, e.size() as int);
    }
}

/// The places and the sizes of the image data of an IFD.
pub fn get_offsets_and_counts(entries: &[IfdEntry], reader: &BigTiffReader) -> (r: Result<
    (Vec<u64>, Vec<u64>),
    Error,
>)
    ensures
        match r {
            Ok((offsets, counts)) => blocks(reader@, entry_views(entries@)) == Ok::<
                (Seq<u64>, Seq<u64>),
                Error,
            >((offsets@, counts@)),
            Err(e) => blocks(reader@, entry_views(entries@)) == Err::<(Seq<u64>, Seq<u64>), Error>(
                e,
            ),
        },
{
    let mut offsets: Vec<u64> = Vec::new();
    let mut counts: Vec<u64> = Vec::new();
    let mut i: usize = 0;
    let ghost views = entry_views(entries@);
    while i < entries.len()
        invariant
            i <= entries@.len(),
            views == entry_views(entries@),
            blocks(reader@, views.take(i as int)) == Ok::<(Seq<u64>, Seq<u64>), Error>(
                (offsets@, counts@),
            ),
        decreases entries@.len() - i,
    {
        let entry: &IfdEntry = &entries[i];
        proof {
            assert(views.take(i + 1).drop_last() =~= views.take(i as int));
            assert(views.take(i + 1).last() == entry@);
            lemma_value_len(reader@, entry@);
            assert(entry.count * number_width(entry.typ) <= entry.count * element_size(entry.typ))
                by (nonlinear_arith)
                requires
                    number_width(entry.typ) <= element_size(entry.typ),
            ;
        }
        if entry.tag == STRIP_OFFSETS || entry.tag == TILE_OFFSETS {
            match reader.read_value_data(entry) {
                Ok(data) => {
                    offsets = parse_offsets(&data, entry.typ, entry.count);
                },
                Err(e) => {
                    proof {
                        lemma_blocks_stop(reader@, views, i + 1);
                    }
                    return Err(e);
                },
            }
        } else if entry.tag == STRIP_BYTE_COUNTS || entry.tag == TILE_BYTE_COUNTS {
            match reader.read_value_data(entry) {
                Ok(data) => {
                    counts = parse_offsets(&data, entry.typ, entry.count);
                },
                Err(e) => {
                    proof {
                        lemma_blocks_stop(reader@, views, i + 1);
                    }
                    return Err(e);
                },
            }
        }
        i = i + 1;
    }
    assert(views.take(i as int) =~= views);
    Ok((offsets, counts))
}

/// Reading the image data stops at the first entry that cannot be read.
proof fn lemma_blocks_stop(store: Seq<Extent>, entries: Seq<Entry>, n: int)
    requires
        0 <= n <= entries.len(),
        blocks(store, entries.take(n)) is Err,
    ensures
        blocks(store, entries) == blocks(store, entries.take(n)),
    decreases entries.len() - n,
{
    if n < entries.len() {
        assert(entries.take(n + 1).drop_last() =~= entries.take(n));
        lemma_blocks_stop(store, entries, n + 1);
    } else {
        assert(entries.take(n) =~= entries);
    }
}

/// Bytes are at hand if and only if one of the ranges holds all that were asked
/// for; they are then those of such a range.
pub proof fn law_fetch(store: Seq<Extent>, offset: int, len: int, k: int)
    requires
        0 <= len,
    ensures
        fetch(store, offset, len) is None && 0 <= k < store.len() ==> !(store[k].start <= offset
            && offset + len <= store[k].start + store[k].bytes.len()),
        fetch(store, offset, len) matches Some(b) ==> exists|l: int|
            0 <= l < store.len() && (#[trigger] store[l]).start <= offset && offset + len
                <= store[l].start + store[l].bytes.len() && b == store[l].bytes.subrange(
                offset - store[l].start,
                offset - store[l].start + len,
            ),
    decreases store.len(),
{
    if store.len() > 0 {
        if store[0].start <= offset && offset + len <= store[0].start + store[0].bytes.len() {
        } else {
            let rest = store.drop_first();
            law_fetch(rest, offset, len, k - 1);
            if 0 < k < store.len() {
                assert(rest[k - 1] == store[k]);
            }
            if let Some(b) = fetch(store, offset, len) {
                let l = choose|l: int|
                    0 <= l < rest.len() && (#[trigger] rest[l]).start <= offset && offset + len
                        <= rest[l].start + rest[l].bytes.len() && b == rest[l].bytes.subrange(
                        offset - rest[l].start,
                        offset - rest[l].start + len,
                    );
                assert(store[l + 1] == rest[l]);
            }
        }
    }
}

/// A file is accepted if and only if it begins with the letters `II`, the version
/// 43, the offset size 8 and two more bytes. Words are judged in that order.
pub proof fn law_header(head: Seq<u8>)
    ensures
        header_check(head) is Ok <==> head.len() >= 8 && head[0] == 0x49 && head[1] == 0x49
            && head[2] == 43 && head[3] == 0 && head[4] == 8 && head[5] == 0,
        header_check(head) == Err::<(), Error>(Error::NotLittleEndian) <==> head.len() >= 2 && !(
        head[0] == 0x49 && head[1] == 0x49),
        header_check(head) matches Err(Error::NotBigTiff { magic }) ==> head.len() >= 4 && magic
            == word16(head, 2) && magic != 43,
        head.len() >= 4 && head[0] == 0x49 && head[1] == 0x49 && !(head[2] == 43 && head[3] == 0)
            ==> header_check(head) is Err && header_check(head)->Err_0 is NotBigTiff,
        header_check(head) == Err::<(), Error>(Error::InvalidOffsetSize) <==> head.len() >= 6
            && head[0] == 0x49 && head[1] == 0x49 && head[2] == 43 && head[3] == 0 && !(head[4] == 8
            && head[5] == 0),
        header_check(head) matches Err(e) ==> e is UnexpectedEof || e is NotLittleEndian || e
            is NotBigTiff || e is InvalidOffsetSize,
{
    law_words(head, 0);
    law_words(head, 2);
    law_words(head, 4);
}

/// The place of the first IFD is the word at byte 8.
pub proof fn law_first_ifd(file: Seq<u8>)
    ensures
        first_ifd(whole(file)) == if file.len() >= 16 {
            Ok::<u64, Error>(word64(file, 8) as u64)
        } else {
            Err::<u64, Error>(Error::NeedBytes { offset: 8, len: 8 })
        },
{
    lemma_fetch_whole(file, 8, 8);
    law_words(file, 8);
}

/// An IFD is a number of entries in 8 bytes, the entries in 20 bytes each, and the
/// place of the next IFD in 8 bytes. It is read if and only if the file holds all
/// of it.
#[verifier::spinoff_prover]
pub proof fn law_ifd(file: Seq<u8>, offset: u64, i: int)
    requires
        file.len() <= u64::MAX,
    ensures
        ({
            let at = offset as int;
            let n = word64(file, at);
            &&& ifd_at(whole(file), offset) is Ok <==> at + 8 <= file.len() && at + 16 + 20 * n
                <= file.len()
            &&& ifd_at(whole(file), offset) matches Ok((entries, next)) ==> {
                &&& entries.len() == n
                &&& next == word64(file, at + 8 + 20 * n)
                &&& 0 <= i < n ==> {
                    &&& entries[i].tag == word16(file, at + 8 + 20 * i)
                    &&& entries[i].typ == word16(file, at + 10 + 20 * i)
                    &&& entries[i].count == word64(file, at + 12 + 20 * i)
                    &&& entries[i].value == file.subrange(at + 20 + 20 * i, at + 28 + 20 * i)
                }
            }
        }),
{
    let at = offset as int;
    let n = word64(file, at);
    lemma_fetch_whole(file, at, 8);
    if at + 8 <= file.len() {
        law_words(file, at);
        let size = 20 * n + 8;
        lemma_fetch_whole(file, at + 8, size);
        if at + 16 + 20 * n <= file.len() {
            let table = file.subrange(at + 8, at + 8 + size);
            law_words(file, at + 8 + 20 * n);
            assert(table.subrange(20 * n, 20 * n + 8) =~= file.subrange(
                at + 8 + 20 * n,
                at + 16 + 20 * n,
            ));
            if 0 <= i < n {
                let b = table.subrange(20 * i, 20 * i + 20);
                law_entry_bytes(b);
                assert(b.subrange(12, 20) =~= file.subrange(at + 20 + 20 * i, at + 28 + 20 * i));
                assert(decode_entries(table, n as nat)[i] == decode_entry(b));
            }
        }
    }
}

/// A value of at most eight bytes is taken from its entry, a larger one from its
/// place in the file, where it is read if and only if the file holds all of it.
pub proof fn law_value(file: Seq<u8>, e: Entry)
    requires
        e.value.len() == 8,
        file.len() <= u64::MAX,
    ensures
        ({
            let size = e.count * element_size(e.typ);
            let at = word64(e.value, 0);
            &&& size <= 8 ==> value_data(whole(file), e) == Ok::<Seq<u8>, Error>(
                e.value.take(size),
            )
            &&& size > 8 ==> (value_data(whole(file), e) is Ok <==> at + size <= file.len())
            &&& size > 8 && at + size <= file.len() ==> value_data(whole(file), e) == Ok::<
                Seq<u8>,
                Error,
            >(file.subrange(at, at + size))
            &&& value_data(whole(file), e) == Err::<Seq<u8>, Error>(Error::ValueTooLarge) <==> size
                > u64::MAX
        }),
{
    law_entry(e);
    lemma_fetch_whole(file, e.offset() as int, e.size() as int);
}

/// The entry at index `k` is the last one with one of two tags.
pub open spec fn is_last_with(entries: Seq<Entry>, a: u16, b: u16, k: int) -> bool {
    &&& 0 <= k < entries.len()
    &&& entries[k].tag == a || entries[k].tag == b
    &&& forall|l: int|
        k < l < entries.len() ==> (#[trigger] entries[l]).tag != a && entries[l].tag != b
}

/// No entry has one of two tags.
pub open spec fn none_with(entries: Seq<Entry>, a: u16, b: u16) -> bool {
    forall|l: int|
        0 <= l < entries.len() ==> (#[trigger] entries[l]).tag != a && entries[l].tag != b
}

/// The places of image data are those that the last entry for strips or tiles
/// gives, and so are the sizes; without such an entry there are none.
pub proof fn law_blocks(store: Seq<Extent>, entries: Seq<Entry>, k: int)
    requires
        blocks(store, entries) is Ok,
    ensures
        ({
            let (offsets, counts) = blocks(store, entries)->Ok_0;
            let e = entries[k];
            let found = numbers(value_data(store, e)->Ok_0, e.typ, e.count as nat);
            &&& is_last_with(entries, 273, 324, k) ==> value_data(store, e) is Ok && offsets
                == found
            &&& is_last_with(entries, 279, 325, k) ==> value_data(store, e) is Ok && counts
                == found
            &&& none_with(entries, 273, 324) ==> offsets.len() == 0
            &&& none_with(entries, 279, 325) ==> counts.len() == 0
        }),
    decreases entries.len(),
{
    if entries.len() > 0 {
        let front = entries.drop_last();
        let e = entries.last();
        assert(e == entries[entries.len() - 1]);
        assert forall|l: int| 0 <= l < front.len() implies #[trigger] front[l] == entries[l] by {}
        law_blocks(store, front, k);
    }
}

/// Image data can be located if and only if every entry about it can be read.
pub proof fn law_blocks_readable(store: Seq<Extent>, entries: Seq<Entry>)
    ensures
        blocks(store, entries) is Ok <==> forall|l: int|
            0 <= l < entries.len() && ((#[trigger] entries[l]).tag == 273 || entries[l].tag == 324
                || entries[l].tag == 279 || entries[l].tag == 325) ==> value_data(
                store,
                entries[l],
            ) is Ok,
    decreases entries.len(),
{
    if entries.len() > 0 {
        let front = entries.drop_last();
        let e = entries.last();
        law_blocks_readable(store, front);
        assert(e == entries[entries.len() - 1]);
        assert forall|l: int| 0 <= l < front.len() implies #[trigger] front[l] == entries[l] by {}
        if blocks(store, entries) is Ok {
            assert forall|l: int|
                0 <= l < entries.len() && ((#[trigger] entries[l]).tag == 273 || entries[l].tag
                    == 324 || entries[l].tag == 279 || entries[l].tag == 325) implies value_data(
                store,
                entries[l],
            ) is Ok by {
                if l < front.len() {
                    assert(front[l] == entries[l]);
                }
            }
        } else if blocks(store, front) is Err {
            let l = choose|l: int|
                0 <= l < front.len() && ((#[trigger] front[l]).tag == 273 || front[l].tag == 324
                    || front[l].tag == 279 || front[l].tag == 325) && value_data(store, front[l])
                    is Err;
            assert(entries[l] == front[l]);
        }
    }
}

/// What is asked for is what is missing: the number of entries of an IFD, then the
/// rest of it; a value of an entry.
pub proof fn law_requests(store: Seq<Extent>, offset: u64, len: u64, e: Entry)
    requires
        e.value.len() == 8,
    ensures
        fetch(store, offset as int, len as int) is None ==> read_at(
            store,
            offset as int,
            len as int,
        ) == Err::<Seq<u8>, Error>(Error::NeedBytes { offset, len }),
        fetch(store, offset as int, len as int) matches Some(b) ==> read_at(
            store,
            offset as int,
            len as int,
        ) == Ok::<Seq<u8>, Error>(b),
        fetch(store, 8, 8) is None ==> first_ifd(store) == Err::<u64, Error>(
            Error::NeedBytes { offset: 8, len: 8 },
        ),
        fetch(store, offset as int, 8) is None ==> ifd_at(store, offset) == Err::<
            (Seq<Entry>, u64),
            Error,
        >(Error::NeedBytes { offset, len: 8 }),
        fetch(store, offset as int, 8) matches Some(b) ==> {
            let size = 20 * word64(b, 0) + 8;
            &&& offset + 8 <= u64::MAX && size <= u64::MAX && fetch(store, offset + 8, size) is None
                ==> ifd_at(store, offset) == Err::<(Seq<Entry>, u64), Error>(
                Error::NeedBytes { offset: (offset + 8) as u64, len: size as u64 },
            )
            &&& offset + 8 > u64::MAX || size > u64::MAX ==> ifd_at(store, offset) == Err::<
                (Seq<Entry>, u64),
                Error,
            >(Error::TooManyEntries)
        },
        8 < e.size() <= u64::MAX && fetch(store, e.offset() as int, e.size() as int) is None
            ==> value_data(store, e) == Err::<Seq<u8>, Error>(
            Error::NeedBytes { offset: word64(e.value, 0) as u64, len: e.size() as u64 },
        ),
{
    law_entry(e);
    lemma_fetch_len(store, offset as int, 8);
    if let Some(b) = fetch(store, offset as int, 8) {
        law_words(b, 0);
        assert(b.subrange(0, 8) =~= b);
    }
}

} // verus!
