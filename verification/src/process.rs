//! Planning the rewritten file: image data first, then the IFDs, then the links
//! between them.
use vstd::prelude::*;

use crate::bytes::{le_bytes, lemma_le_bytes_len, u64_bytes};
use crate::consolidated::block_count;
use crate::entry::{element_size, encode_ifd, entry_views, lemma_encode_entries, well_formed, Entry,
    IfdEntry, LONG8, STRIP_OFFSETS, TILE_OFFSETS};
use crate::error::Error;
use crate::offsets::{encode_numbers, encode_offsets};
use crate::ome::{create_ome_description_entry, inline_value, put_description};
use crate::order::{sort_by_tag, sort_entries};
use crate::source::{description_of, ifd_views, Ifd, SourceIfd, Survey};
use crate::writer::{pad, put, put_copy, put_header, put_patch, zeros, BigTiffWriter, Out};

verus! {

/// Copies the first `n` blocks of image data, each to an even position; also
/// gives their new places.
pub open spec fn put_strips(o: Out, offsets: Seq<u64>, counts: Seq<u64>, n: nat) -> (Out, Seq<u64>)
    decreases n,
{
    if n == 0 {
        (o, Seq::empty())
    } else {
        let (p, places) = put_strips(o, offsets, counts, (n - 1) as nat);
        let q = pad(p, 2);
        (put_copy(q, offsets[n - 1], counts[n - 1]), places.push(q.pos as u64))
    }
}

/// Copies all image data of an IFD.
pub open spec fn put_image(o: Out, ifd: Ifd) -> (Out, Seq<u64>) {
    put_strips(o, ifd.offsets, ifd.counts, block_count(ifd.offsets, ifd.counts))
}

/// Copies the image data of the first `n` IFDs; also gives the new places.
pub open spec fn put_images(o: Out, ifds: Seq<Ifd>, n: nat) -> (Out, Seq<Seq<u64>>)
    decreases n,
{
    if n == 0 {
        (o, Seq::empty())
    } else {
        let (p, all) = put_images(o, ifds, (n - 1) as nat);
        let (q, places) = put_image(p, ifds[n - 1]);
        (q, all.push(places))
    }
}

/// The entry that locates image data at `places`, apart from its value field.
pub open spec fn locating(e: Entry, places: Seq<u64>, value: Seq<u8>) -> Entry {
    Entry { tag: e.tag, typ: LONG8, count: places.len() as u64, value }
}

/// Makes the new form of an entry. One that locates image data gets the new
/// places; any other value outside the entry is copied, to a position divisible
/// by 8. What a value means is not looked at: one that holds the place of another
/// IFD is carried over as it is, and that IFD is not followed.
pub open spec fn put_entry(o: Out, e: Entry, places: Seq<u64>) -> (Out, Entry) {
    if e.locates() {
        let data = encode_numbers(places);
        if data.len() <= 8 {
            (o, locating(e, places, data + zeros((8 - data.len()) as nat)))
        } else {
            let q = pad(o, 8);
            (put(q, data), locating(e, places, le_bytes(q.pos as nat, 8)))
        }
    } else if e.inline() {
        (o, e)
    } else {
        let q = pad(o, 8);
        (
            put_copy(q, e.offset() as u64, e.size() as u64),
            Entry { value: le_bytes(q.pos as nat, 8), ..e },
        )
    }
}

/// Makes the new forms of the first `n` entries.
pub open spec fn put_entries(o: Out, entries: Seq<Entry>, places: Seq<u64>, n: nat) -> (
    Out,
    Seq<Entry>,
)
    decreases n,
{
    if n == 0 {
        (o, Seq::empty())
    } else {
        let (p, made) = put_entries(o, entries, places, (n - 1) as nat);
        let (q, e) = put_entry(p, entries[n - 1], places);
        (q, made.push(e))
    }
}

/// Makes all entries of a new IFD, in no particular order.
pub open spec fn put_all_entries(
    o: Out,
    ifd: Ifd,
    places: Seq<u64>,
    description: Option<Seq<char>>,
) -> (Out, Seq<Entry>) {
    let (p, made) = put_entries(o, ifd.entries, places, ifd.entries.len());
    match description {
        None => (p, made),
        Some(text) => {
            let (q, e) = put_description(p, text);
            (q, made.push(e))
        },
    }
}

/// Writes an IFD with its values before it, to a position divisible by 8; also
/// gives its place and its entries, sorted by tag.
pub open spec fn put_ifd(
    o: Out,
    ifd: Ifd,
    places: Seq<u64>,
    description: Option<Seq<char>>,
) -> (Out, u64, Seq<Entry>) {
    let (p, made) = put_all_entries(o, ifd, places, description);
    let entries = sort_by_tag(made);
    let q = pad(p, 8);
    (put(q, encode_ifd(entries, 0)), q.pos as u64, entries)
}

/// The description, for the first IFD only.
pub open spec fn description_at(description: Option<Seq<char>>, i: int) -> Option<Seq<char>> {
    if i == 0 {
        description
    } else {
        None
    }
}

/// Writes the first `n` IFDs; also gives their places and numbers of entries.
pub open spec fn put_ifds(
    o: Out,
    ifds: Seq<Ifd>,
    all: Seq<Seq<u64>>,
    description: Option<Seq<char>>,
    n: nat,
) -> (Out, Seq<(u64, u64)>)
    decreases n,
{
    if n == 0 {
        (o, Seq::empty())
    } else {
        let (p, infos) = put_ifds(o, ifds, all, description, (n - 1) as nat);
        let (q, offset, entries) = put_ifd(
            p,
            ifds[n - 1],
            all[n - 1],
            description_at(description, n - 1),
        );
        (q, infos.push((offset, entries.len() as u64)))
    }
}

/// Position of the link to the next IFD in an IFD.
pub open spec fn link_position(info: (u64, u64)) -> int {
    info.0 + 8 + info.1 * 20
}

/// Links each of the first `n` IFDs to the one after it.
pub open spec fn put_links(o: Out, infos: Seq<(u64, u64)>, n: nat) -> Out
    decreases n,
{
    if n == 0 {
        o
    } else {
        put_patch(
            put_links(o, infos, (n - 1) as nat),
            link_position(infos[n - 1]) as u64,
            infos[n as int].0,
        )
    }
}

/// The output with all image data written.
pub open spec fn image_part(ifds: Seq<Ifd>) -> (Out, Seq<Seq<u64>>) {
    put_images(put_header(), ifds, ifds.len())
}

/// The output with all IFDs written and not linked.
pub open spec fn unlinked(ifds: Seq<Ifd>, description: Option<Seq<char>>) -> (
    Out,
    Seq<(u64, u64)>,
) {
    put_ifds(pad(image_part(ifds).0, 8), ifds, image_part(ifds).1, description, ifds.len())
}

/// The whole output.
pub open spec fn plan(ifds: Seq<Ifd>, description: Option<Seq<char>>) -> Out {
    let (p, infos) = unlinked(ifds, description);
    put_links(put_patch(p, 8, infos[0].0), infos, (infos.len() - 1) as nat)
}

/// Whether the sizes of all values are addressable.
pub open spec fn all_fit(ifds: Seq<Ifd>) -> bool {
    forall|i: int, j: int|
        0 <= i < ifds.len() && 0 <= j < ifds[i].entries.len() ==> (
        #[trigger] ifds[i].entries[j]).fits()
}

/// Every value field is eight bytes wide.
pub open spec fn all_well_formed(ifds: Seq<Ifd>) -> bool {
    forall|i: int| 0 <= i < ifds.len() ==> well_formed((#[trigger] ifds[i]).entries)
}

// Positions only grow.

/// Blocks only move the position on.
pub proof fn lemma_strips_grow(o: Out, offsets: Seq<u64>, counts: Seq<u64>, m: nat, n: nat)
    requires
        m <= n,
    ensures
        put_strips(o, offsets, counts, m).0.pos <= put_strips(o, offsets, counts, n).0.pos,
        put_strips(o, offsets, counts, n).1.len() == n,
    decreases n,
{
    if n > 0 {
        if m < n {
            lemma_strips_grow(o, offsets, counts, m, (n - 1) as nat);
        } else {
            lemma_strips_grow(o, offsets, counts, (n - 1) as nat, (n - 1) as nat);
        }
    }
}

/// Images only move the position on.
pub proof fn lemma_images_grow(o: Out, ifds: Seq<Ifd>, m: nat, n: nat)
    requires
        m <= n,
    ensures
        put_images(o, ifds, m).0.pos <= put_images(o, ifds, n).0.pos,
        put_images(o, ifds, n).1.len() == n,
    decreases n,
{
    if n > 0 {
        let p = put_images(o, ifds, (n - 1) as nat).0;
        let ifd = ifds[n - 1];
        lemma_strips_grow(
            p,
            ifd.offsets,
            ifd.counts,
            0,
            block_count(ifd.offsets, ifd.counts),
        );
        if m < n {
            lemma_images_grow(o, ifds, m, (n - 1) as nat);
        } else {
            lemma_images_grow(o, ifds, (n - 1) as nat, (n - 1) as nat);
        }
    }
}

/// Entries only move the position on.
pub proof fn lemma_entries_grow(o: Out, entries: Seq<Entry>, places: Seq<u64>, m: nat, n: nat)
    requires
        m <= n,
    ensures
        put_entries(o, entries, places, m).0.pos <= put_entries(o, entries, places, n).0.pos,
        put_entries(o, entries, places, n).1.len() == n,
    decreases n,
{
    if n > 0 {
        if m < n {
            lemma_entries_grow(o, entries, places, m, (n - 1) as nat);
        } else {
            lemma_entries_grow(o, entries, places, (n - 1) as nat, (n - 1) as nat);
        }
    }
}

/// An IFD only moves the position on.
pub proof fn lemma_ifd_grows(
    o: Out,
    ifd: Ifd,
    places: Seq<u64>,
    description: Option<Seq<char>>,
)
    ensures
        o.pos <= put_entries(o, ifd.entries, places, ifd.entries.len()).0.pos <= put_all_entries(
            o,
            ifd,
            places,
            description,
        ).0.pos <= put_ifd(o, ifd, places, description).0.pos,
{
    lemma_entries_grow(o, ifd.entries, places, 0, ifd.entries.len());
}

/// IFDs only move the position on.
pub proof fn lemma_ifds_grow(
    o: Out,
    ifds: Seq<Ifd>,
    all: Seq<Seq<u64>>,
    description: Option<Seq<char>>,
    m: nat,
    n: nat,
)
    requires
        m <= n,
    ensures
        put_ifds(o, ifds, all, description, m).0.pos <= put_ifds(
            o,
            ifds,
            all,
            description,
            n,
        ).0.pos,
        put_ifds(o, ifds, all, description, n).1.len() == n,
    decreases n,
{
    if n > 0 {
        lemma_ifd_grows(
            put_ifds(o, ifds, all, description, (n - 1) as nat).0,
            ifds[n - 1],
            all[n - 1],
            description_at(description, n - 1),
        );
        if m < n {
            lemma_ifds_grow(o, ifds, all, description, m, (n - 1) as nat);
        } else {
            lemma_ifds_grow(o, ifds, all, description, (n - 1) as nat, (n - 1) as nat);
        }
    }
}

/// Links leave the position where it is.
pub proof fn lemma_links_stay(o: Out, infos: Seq<(u64, u64)>, n: nat)
    ensures
        put_links(o, infos, n).pos == o.pos,
    decreases n,
{
    if n > 0 {
        lemma_links_stay(o, infos, (n - 1) as nat);
    }
}

/// Copies all image data of an IFD; gives the new places.
pub fn write_image(writer: &mut BigTiffWriter, ifd: &SourceIfd) -> (r: Result<Vec<u64>, Error>)
    ensures
        match r {
            Ok(places) => (final(writer)@, places@) == put_image(old(writer)@, ifd@),
            Err(e) => e == Error::OutputTooLarge && put_image(old(writer)@, ifd@).0.pos > u64::MAX,
        },
{
    let ghost start = writer@;
    let ghost total = block_count(ifd.offsets@, ifd.counts@);
    let mut places: Vec<u64> = Vec::new();
    let mut j: usize = 0;
    while j < ifd.offsets.len() && j < ifd.counts.len()
        invariant
            total == block_count(ifd.offsets@, ifd.counts@),
            j <= total,
            start == old(writer)@,
            (writer@, places@) == put_strips(start, ifd.offsets@, ifd.counts@, j as nat),
        decreases total - j,
    {
        proof {
            lemma_strips_grow(start, ifd.offsets@, ifd.counts@, (j + 1) as nat, total);
        }
        match writer.align(2) {
            Ok(_) => {},
            Err(e) => {
                return Err(e);
            },
        }
        match writer.copy_bytes(ifd.offsets[j], ifd.counts[j]) {
            Ok(place) => {
                places.push(place);
            },
            Err(e) => {
                return Err(e);
            },
        }
        j = j + 1;
    }
    Ok(places)
}

/// The contents of lists of places.
pub open spec fn place_views(all: Seq<Vec<u64>>) -> Seq<Seq<u64>> {
    all.map_values(|v: Vec<u64>| v@)
}

/// Copies all image data; gives the new places.
pub fn write_images(writer: &mut BigTiffWriter, ifds: &Vec<SourceIfd>) -> (r: Result<
    Vec<Vec<u64>>,
    Error,
>)
    ensures
        match r {
            Ok(all) => (final(writer)@, place_views(all@)) == put_images(
                old(writer)@,
                ifd_views(ifds@),
                ifds@.len(),
            ),
            Err(e) => e == Error::OutputTooLarge && put_images(
                old(writer)@,
                ifd_views(ifds@),
                ifds@.len(),
            ).0.pos > u64::MAX,
        },
{
    let ghost start = writer@;
    let ghost views = ifd_views(ifds@);
    let mut all: Vec<Vec<u64>> = Vec::new();
    let mut i: usize = 0;
    assert(place_views(all@) =~= Seq::<Seq<u64>>::empty());
    while i < ifds.len()
        invariant
            i <= ifds@.len(),
            start == old(writer)@,
            views == ifd_views(ifds@),
            (writer@, place_views(all@)) == put_images(start, views, i as nat),
        decreases ifds@.len() - i,
    {
        let ghost before = all@;
        proof {
            lemma_images_grow(start, views, (i + 1) as nat, ifds@.len());
        }
        match write_image(writer, &ifds[i]) {
            Ok(places) => {
                all.push(places);
                assert(place_views(all@) =~= place_views(before).push(places@));
            },
            Err(e) => {
                return Err(e);
            },
        }
        i = i + 1;
    }
    Ok(all)
}

/// Makes the new form of an entry, and writes its value where that stands
/// outside the entry.
pub fn write_entry_value(writer: &mut BigTiffWriter, entry: &IfdEntry, places: &Vec<u64>) -> (r:
    Result<IfdEntry, Error>)
    requires
        entry@.fits(),
    ensures
        match r {
            Ok(made) => (final(writer)@, made@) == put_entry(old(writer)@, entry@, places@),
            Err(e) => e == Error::OutputTooLarge && put_entry(
                old(writer)@,
                entry@,
                places@,
            ).0.pos > u64::MAX,
        },
{
    if entry.tag == STRIP_OFFSETS || entry.tag == TILE_OFFSETS {
        let (typ, data): (u16, Vec<u8>) = encode_offsets(places);
        let count: u64 = places.len() as u64;
        if data.len() <= 8 {
            let value_or_offset: [u8; 8] = inline_value(&data);
            return Ok(IfdEntry { tag: entry.tag, typ, count, value_or_offset });
        }
        match writer.align(8) {
            Ok(_) => {},
            Err(e) => {
                return Err(e);
            },
        }
        match writer.write_bytes(data) {
            Ok(offset) => Ok(
                IfdEntry { tag: entry.tag, typ, count, value_or_offset: u64_bytes(offset) },
            ),
            Err(e) => Err(e),
        }
    } else if entry.is_inline() {
        Ok(*entry)
    } else {
        match writer.align(8) {
            Ok(_) => {},
            Err(e) => {
                return Err(e);
            },
        }
        match writer.copy_bytes(entry.offset(), entry.value_size()) {
            Ok(offset) => Ok(
                IfdEntry {
                    tag: entry.tag,
                    typ: entry.typ,
                    count: entry.count,
                    value_or_offset: u64_bytes(offset),
                },
            ),
            Err(e) => Err(e),
        }
    }
}

/// Writes one IFD with its values before it; gives its place and its number of
/// entries.
pub fn write_one_ifd(
    writer: &mut BigTiffWriter,
    ifd: &SourceIfd,
    places: &Vec<u64>,
    description: Option<&String>,
) -> (r: Result<(u64, u64), Error>)
    requires
        forall|j: int| 0 <= j < ifd@.entries.len() ==> (#[trigger] ifd@.entries[j]).fits(),
    ensures
        ({
            let text = match description {
                Some(d) => Some(d@),
                None => None,
            };
            let made = put_ifd(old(writer)@, ifd@, places@, text);
            match r {
                Ok(info) => final(writer)@ == made.0 && made.0.pos <= u64::MAX && info == (
                    made.1,
                    made.2.len() as u64,
                ) && link_position(info) + 8 == made.0.pos,
                Err(e) => e == Error::OutputTooLarge && made.0.pos > u64::MAX,
            }
        }),
{
    let ghost start = writer@;
    let ghost views = ifd@.entries;
    let ghost text = match description {
        Some(d) => Some(d@),
        None => None,
    };
    let mut made: Vec<IfdEntry> = Vec::new();
    let mut j: usize = 0;
    assert(entry_views(made@) =~= Seq::<Entry>::empty());
    proof {
        lemma_ifd_grows(start, ifd@, places@, text);
    }
    while j < ifd.entries.len()
        invariant
            j <= ifd.entries@.len(),
            start == old(writer)@,
            views == ifd@.entries,
            views.len() == ifd.entries@.len(),
            forall|k: int| 0 <= k < views.len() ==> (#[trigger] views[k]).fits(),
            (writer@, entry_views(made@)) == put_entries(start, views, places@, j as nat),
            put_entries(start, views, places@, views.len()).0.pos <= put_ifd(
                start,
                ifd@,
                places@,
                text,
            ).0.pos,
            text == (match description {
                Some(d) => Some(d@),
                None => None,
            }),
        decreases ifd.entries@.len() - j,
    {
        let ghost before = made@;
        proof {
            lemma_entries_grow(start, views, places@, (j + 1) as nat, views.len());
            assert(views[j as int] == ifd.entries@[j as int]@);
        }
        match write_entry_value(writer, &ifd.entries[j], places) {
            Ok(e) => {
                made.push(e);
                assert(entry_views(made@) =~= entry_views(before).push(e@));
            },
            Err(e) => {
                return Err(e);
            },
        }
        j = j + 1;
    }
    match description {
        Some(xml) => {
            let ghost before = made@;
            match create_ome_description_entry(xml.as_str(), writer) {
                Ok(e) => {
                    made.push(e);
                    assert(entry_views(made@) =~= entry_views(before).push(e@));
                },
                Err(e) => {
                    return Err(e);
                },
            }
        },
        None => {},
    }
    let sorted: Vec<IfdEntry> = sort_entries(&made);
    assert(entry_views(sorted@).len() == sorted@.len());
    match writer.align(8) {
        Ok(_) => {},
        Err(e) => {
            return Err(e);
        },
    }
    proof {
        lemma_encode_entries(entry_views(sorted@));
        lemma_le_bytes_len(sorted@.len(), 8);
        lemma_le_bytes_len(0, 8);
    }
    match writer.write_ifd(&sorted, 0) {
        Ok(offset) => Ok((offset, sorted.len() as u64)),
        Err(e) => Err(e),
    }
}

/// Writes all IFDs; gives their places and numbers of entries.
pub fn write_ifds(
    writer: &mut BigTiffWriter,
    ifds: &Vec<SourceIfd>,
    all: &Vec<Vec<u64>>,
    description: Option<&String>,
) -> (r: Result<Vec<(u64, u64)>, Error>)
    requires
        all_fit(ifd_views(ifds@)),
        all@.len() == ifds@.len(),
    ensures
        ({
            let text = match description {
                Some(d) => Some(d@),
                None => None,
            };
            let made = put_ifds(
                old(writer)@,
                ifd_views(ifds@),
                place_views(all@),
                text,
                ifds@.len(),
            );
            match r {
                Ok(infos) => final(writer)@ == made.0 && infos@ == made.1 && made.0.pos
                    <= u64::MAX && forall|i: int|
                    0 <= i < infos@.len() ==> #[trigger] link_position(infos@[i]) + 8
                        <= made.0.pos,
                Err(e) => e == Error::OutputTooLarge && made.0.pos > u64::MAX,
            }
        }),
{
    let ghost start = writer@;
    let ghost views = ifd_views(ifds@);
    let ghost places = place_views(all@);
    let ghost text = match description {
        Some(d) => Some(d@),
        None => None,
    };
    proof {
        writer.lemma_position();
    }
    let mut infos: Vec<(u64, u64)> = Vec::new();
    let mut i: usize = 0;
    while i < ifds.len()
        invariant
            i <= ifds@.len() == all@.len(),
            start == old(writer)@,
            views == ifd_views(ifds@),
            places == place_views(all@),
            all_fit(views),
            (writer@, infos@) == put_ifds(start, views, places, text, i as nat),
            writer@.pos <= u64::MAX,
            infos@.len() == i,
            forall|k: int| 0 <= k < i ==> #[trigger] link_position(infos@[k]) + 8 <= writer@.pos,
            text == (match description {
                Some(d) => Some(d@),
                None => None,
            }),
        decreases ifds@.len() - i,
    {
        let ghost before = writer@;
        proof {
            assert(views[i as int] == ifds@[i as int]@);
            assert(places[i as int] == all@[i as int]@);
            lemma_ifds_grow(start, views, places, text, (i + 1) as nat, ifds@.len());
            lemma_ifd_grows(
                before,
                views[i as int],
                places[i as int],
                description_at(text, i as int),
            );
            assert forall|j: int| 0 <= j < ifds@[i as int]@.entries.len() implies (
            #[trigger] ifds@[i as int]@.entries[j]).fits() by {
                assert(views[i as int].entries[j].fits());
            }
        }
        let own: Option<&String> = if i == 0 {
            description
        } else {
            None
        };
        match write_one_ifd(writer, &ifds[i], &all[i], own) {
            Ok(info) => {
                infos.push(info);
            },
            Err(e) => {
                return Err(e);
            },
        }
        i = i + 1;
    }
    Ok(infos)
}

/// Enters the place of the first IFD in the header, and links each IFD to the
/// one after it.
pub fn link_ifds(writer: &mut BigTiffWriter, infos: &Vec<(u64, u64)>)
    requires
        infos@.len() > 0,
        forall|i: int|
            0 <= i < infos@.len() ==> #[trigger] link_position(infos@[i]) + 8 <= u64::MAX,
    ensures
        final(writer)@ == put_links(
            put_patch(old(writer)@, 8, infos@[0].0),
            infos@,
            (infos@.len() - 1) as nat,
        ),
{
    writer.write_first_ifd_offset(infos[0].0);
    let ghost start = writer@;
    let mut i: usize = 0;
    while i < infos.len() - 1
        invariant
            i <= infos@.len() - 1,
            infos@.len() > 0,
            forall|k: int|
                0 <= k < infos@.len() ==> #[trigger] link_position(infos@[k]) + 8 <= u64::MAX,
            writer@ == put_links(start, infos@, i as nat),
        decreases infos@.len() - i,
    {
        let (this_offset, this_count): (u64, u64) = infos[i];
        let (next_offset, _): (u64, u64) = infos[i + 1];
        assert(link_position(infos@[i as int]) + 8 <= u64::MAX);
        writer.update_next_ifd(this_offset, next_offset, this_count);
        i = i + 1;
    }
}

/// Whether the sizes of all values are addressable.
fn values_fit(ifds: &Vec<SourceIfd>) -> (r: bool)
    ensures
        r == all_fit(ifd_views(ifds@)),
{
    let ghost views = ifd_views(ifds@);
    let mut i: usize = 0;
    while i < ifds.len()
        invariant
            i <= ifds@.len(),
            views == ifd_views(ifds@),
            all_fit(views.take(i as int)),
        decreases ifds@.len() - i,
    {
        let entries: &Vec<IfdEntry> = &ifds[i].entries;
        let mut j: usize = 0;
        while j < entries.len()
            invariant
                i < ifds@.len(),
                j <= entries@.len(),
                views == ifd_views(ifds@),
                entries@ == ifds@[i as int].entries@,
                forall|k: int| 0 <= k < j ==> (#[trigger] entries@[k])@.fits(),
            decreases entries@.len() - j,
        {
            if !entries[j].value_fits() {
                assert(views[i as int].entries[j as int] == entries@[j as int]@);
                return false;
            }
            j = j + 1;
        }
        proof {
            let now = views.take(i + 1);
            assert forall|a: int, b: int|
                0 <= a < now.len() && 0 <= b < now[a].entries.len() implies (
            #[trigger] now[a].entries[b]).fits() by {
                if a < i {
                    assert(now[a] == views.take(i as int)[a]);
                    assert(views.take(i as int)[a].entries[b].fits());
                } else {
                    assert(now[a].entries[b] == entries@[b]@);
                }
            }
        }
        i = i + 1;
    }
    assert(views.take(i as int) =~= views);
    true
}

/// Plans the output for a survey that has reached the end of the chain: all
/// image data first, then the IFDs, one after the other, then their links.
pub fn process_file(survey: &Survey) -> (r: Result<BigTiffWriter, Error>)
    requires
        survey@.ifds.len() > 0,
    ensures
        match r {
            Ok(writer) => all_fit(survey@.ifds) && writer@ == plan(
                survey@.ifds,
                description_of(survey@),
            ) && writer@.pos <= u64::MAX,
            Err(e) => if !all_fit(survey@.ifds) {
                e == Error::ValueTooLarge
            } else {
                e == Error::OutputTooLarge && plan(survey@.ifds, description_of(survey@)).pos
                    > u64::MAX
            },
        },
{
    let ghost ifds = survey@.ifds;
    let ghost text = description_of(survey@);
    if !values_fit(&survey.ifds) {
        return Err(Error::ValueTooLarge);
    }
    let xml: Option<String> = survey.description();
    let mut writer: BigTiffWriter = BigTiffWriter::create();
    proof {
        let n = ifds.len();
        let (p, all) = image_part(ifds);
        lemma_images_grow(put_header(), ifds, n, n);
        lemma_ifds_grow(pad(p, 8), ifds, all, text, 0, n);
        lemma_ifds_grow(pad(p, 8), ifds, all, text, n, n);
        let (q, infos) = unlinked(ifds, text);
        lemma_links_stay(put_patch(q, 8, infos[0].0), infos, (infos.len() - 1) as nat);
    }
    let all: Vec<Vec<u64>> = match write_images(&mut writer, &survey.ifds) {
        Ok(a) => a,
        Err(e) => {
            return Err(e);
        },
    };
    match writer.align(8) {
        Ok(_) => {},
        Err(e) => {
            return Err(e);
        },
    }
    assert(place_views(all@).len() == all@.len());
    let infos: Vec<(u64, u64)> = match write_ifds(
        &mut writer,
        &survey.ifds,
        &all,
        xml.as_ref(),
    ) {
        Ok(i) => i,
        Err(e) => {
            return Err(e);
        },
    };
    link_ifds(&mut writer, &infos);
    proof {
        writer.lemma_position();
    }
    Ok(writer)
}

/// Values are refused if and only if one is larger than the largest 64-bit number.
pub proof fn law_all_fit(ifds: Seq<Ifd>)
    ensures
        all_fit(ifds) <==> forall|i: int, j: int|
            0 <= i < ifds.len() && 0 <= j < ifds[i].entries.len() ==> (
            #[trigger] ifds[i].entries[j]).count * element_size(ifds[i].entries[j].typ)
                <= 0xffff_ffff_ffff_ffff,
{
    if all_fit(ifds) {
        assert forall|i: int, j: int|
            0 <= i < ifds.len() && 0 <= j < ifds[i].entries.len() implies (
        #[trigger] ifds[i].entries[j]).count * element_size(ifds[i].entries[j].typ)
            <= 0xffff_ffff_ffff_ffff by {
            assert(ifds[i].entries[j].fits());
        }
    } else {
        let (i, j) = choose|i: int, j: int|
            0 <= i < ifds.len() && 0 <= j < ifds[i].entries.len() && !(
            #[trigger] ifds[i].entries[j]).fits();
        assert(ifds[i].entries[j].count * element_size(ifds[i].entries[j].typ)
            > 0xffff_ffff_ffff_ffff);
    }
}

} // verus!
