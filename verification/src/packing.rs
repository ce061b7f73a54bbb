//! Nothing stands in the output but what has to: no space is left between image
//! data, values and IFDs except to align them.
use vstd::prelude::*;

use crate::entry::Entry;
use crate::layout::{content, in_chain};
use crate::offsets::lemma_encode_numbers;
use crate::ome::put_description;
use crate::process::{description_at, image_part, lemma_entries_grow, lemma_ifd_grows,
    lemma_ifds_grow, lemma_images_grow, lemma_strips_grow, put_all_entries, put_entries, put_entry,
    put_ifd, put_ifds, put_image, put_images, put_strips, unlinked};
use crate::readback::{before_ifd, law_output_len, lemma_placed, lemma_unlinked, made_entries,
    new_entries, new_offset, new_places, output, plannable};
use crate::source::Ifd;
use crate::writer::{law_pad, pad, put_header, Out};

verus! {

/// Where the block at index `j` goes.
proof fn lemma_strip_at(o: Out, offsets: Seq<u64>, counts: Seq<u64>, n: nat, j: int)
    requires
        0 <= j < n,
    ensures
        put_strips(o, offsets, counts, n).1.len() == n,
        put_strips(o, offsets, counts, n).1[j] == pad(
            put_strips(o, offsets, counts, j as nat).0,
            2,
        ).pos as u64,
        put_strips(o, offsets, counts, (j + 1) as nat).0.pos == pad(
            put_strips(o, offsets, counts, j as nat).0,
            2,
        ).pos + counts[j],
    decreases n,
{
    lemma_strips_grow(o, offsets, counts, n, n);
    lemma_strips_grow(o, offsets, counts, (n - 1) as nat, (n - 1) as nat);
    if j < n - 1 {
        lemma_strip_at(o, offsets, counts, (n - 1) as nat, j);
    }
}

/// The places of an IFD are those that its image data got when it was copied.
proof fn lemma_image_at(o: Out, ifds: Seq<Ifd>, n: nat, i: int)
    requires
        0 <= i < n,
    ensures
        put_images(o, ifds, n).1[i] == put_image(put_images(o, ifds, i as nat).0, ifds[i]).1,
    decreases n,
{
    lemma_images_grow(o, ifds, n, n);
    lemma_images_grow(o, ifds, (n - 1) as nat, (n - 1) as nat);
    if i < n - 1 {
        lemma_image_at(o, ifds, (n - 1) as nat, i);
    }
}

/// How many blocks of an IFD have a place and a size.
pub open spec fn blocks_of(ifd: Ifd) -> int {
    if ifd.offsets.len() <= ifd.counts.len() {
        ifd.offsets.len() as int
    } else {
        ifd.counts.len() as int
    }
}

/// The end of the image data of the first `i` IFDs: that of the last block that
/// they have, or of the header.
pub open spec fn end_before(ifds: Seq<Ifd>, i: nat) -> int
    decreases i,
{
    if i == 0 {
        16
    } else {
        let k = blocks_of(ifds[i - 1]);
        if k > 0 {
            new_places(ifds, i - 1)[k - 1] + ifds[i - 1].counts[k - 1]
        } else {
            end_before(ifds, (i - 1) as nat)
        }
    }
}

/// The output up to an image ends where its image data does.
proof fn lemma_image_end(ifds: Seq<Ifd>, description: Option<Seq<char>>, i: nat)
    requires
        plannable(ifds, description),
        i <= ifds.len(),
    ensures
        put_images(put_header(), ifds, i).0.pos == end_before(ifds, i),
        0 <= put_images(put_header(), ifds, i).0.pos <= u64::MAX,
    decreases i,
{
    let n = ifds.len();
    lemma_unlinked(Seq::empty(), ifds, description);
    lemma_images_grow(put_header(), ifds, i, n);
    lemma_images_grow(put_header(), ifds, 0, i);
    if i > 0 {
        lemma_image_end(ifds, description, (i - 1) as nat);
        let ifd = ifds[i - 1];
        let base = put_images(put_header(), ifds, (i - 1) as nat).0;
        let k = blocks_of(ifd);
        lemma_image_at(put_header(), ifds, n, i - 1);
        if k > 0 {
            lemma_strip_at(base, ifd.offsets, ifd.counts, k as nat, k - 1);
            lemma_placed(Seq::empty(), ifds, description, i - 1, k - 1);
            lemma_strips_grow(base, ifd.offsets, ifd.counts, (k - 1) as nat, k as nat);
            lemma_strips_grow(base, ifd.offsets, ifd.counts, 0, (k - 1) as nat);
            law_pad(put_strips(base, ifd.offsets, ifd.counts, (k - 1) as nat).0, 2);
        }
    }
}

/// Every block begins where the one before it ends, or one byte later to stand at
/// an even place; the first one begins right behind the header.
pub proof fn law_blocks_packed(ifds: Seq<Ifd>, description: Option<Seq<char>>, i: int, j: int)
    requires
        plannable(ifds, description),
        0 <= i < ifds.len(),
        0 <= j < ifds[i].offsets.len(),
        j < ifds[i].counts.len(),
    ensures
        ({
            let end = if j > 0 {
                new_places(ifds, i)[j - 1] + ifds[i].counts[j - 1]
            } else {
                end_before(ifds, i as nat)
            };
            end <= new_places(ifds, i)[j] <= end + 1
        }),
{
    let n = ifds.len();
    let ifd = ifds[i];
    let k = blocks_of(ifd) as nat;
    let base = put_images(put_header(), ifds, i as nat).0;
    lemma_image_end(ifds, description, i as nat);
    lemma_image_at(put_header(), ifds, n, i);
    lemma_strip_at(base, ifd.offsets, ifd.counts, k, j);
    let before = put_strips(base, ifd.offsets, ifd.counts, j as nat).0;
    lemma_strips_grow(base, ifd.offsets, ifd.counts, 0, j as nat);
    lemma_strips_grow(base, ifd.offsets, ifd.counts, (j + 1) as nat, k);
    lemma_unlinked(Seq::empty(), ifds, description);
    lemma_images_grow(put_header(), ifds, (i + 1) as nat, n);
    law_pad(before, 2);
    if j > 0 {
        lemma_strip_at(base, ifd.offsets, ifd.counts, k, j - 1);
        lemma_strips_grow(base, ifd.offsets, ifd.counts, 0, (j - 1) as nat);
        lemma_strips_grow(base, ifd.offsets, ifd.counts, (j - 1) as nat, j as nat);
        law_pad(put_strips(base, ifd.offsets, ifd.counts, (j - 1) as nat).0, 2);
    }
}

/// What the values of entries take at most, if they do not stand in the entries:
/// their sizes, and less than eight bytes each to align them.
pub open spec fn room(entries: Seq<Entry>) -> int
    decreases entries.len(),
{
    if entries.len() == 0 {
        0
    } else {
        room(entries.drop_last()) + if entries.last().size() > 8 {
            entries.last().size() + 7
        } else {
            0
        }
    }
}

/// The values of entries take no more than their room.
proof fn lemma_entries_room(o: Out, entries: Seq<Entry>, places: Seq<u64>, n: nat)
    requires
        0 <= o.pos,
        n <= entries.len(),
        forall|j: int| 0 <= j < entries.len() ==> (#[trigger] entries[j]).fits(),
        put_entries(o, entries, places, n).0.pos <= u64::MAX,
    ensures
        put_entries(o, entries, places, n).0.pos <= o.pos + room(
            put_entries(o, entries, places, n).1,
        ),
    decreases n,
{
    if n > 0 {
        let (p, front) = put_entries(o, entries, places, (n - 1) as nat);
        let e = entries[n - 1];
        let (q, last) = put_entry(p, e, places);
        lemma_entries_grow(o, entries, places, 0, (n - 1) as nat);
        lemma_entries_room(o, entries, places, (n - 1) as nat);
        lemma_encode_numbers(places);
        law_pad(p, 8);
        assert(front.push(last).drop_last() =~= front);
        assert(e.fits());
        if e.locates() {
            assert(q.pos <= p.pos + if last.size() > 8 {
                last.size() + 7
            } else {
                0
            });
        }
    }
}

/// The values of all entries of an IFD take no more than their room.
proof fn lemma_all_entries_room(
    o: Out,
    ifd: Ifd,
    places: Seq<u64>,
    description: Option<Seq<char>>,
)
    requires
        0 <= o.pos,
        forall|j: int| 0 <= j < ifd.entries.len() ==> (#[trigger] ifd.entries[j]).fits(),
        put_all_entries(o, ifd, places, description).0.pos <= u64::MAX,
    ensures
        put_all_entries(o, ifd, places, description).0.pos <= o.pos + room(
            put_all_entries(o, ifd, places, description).1,
        ),
{
    let n = ifd.entries.len();
    let (p, front) = put_entries(o, ifd.entries, places, n);
    lemma_entries_grow(o, ifd.entries, places, 0, n);
    lemma_entries_room(o, ifd.entries, places, n);
    if let Some(text) = description {
        let (q, last) = put_description(p, text);
        law_pad(p, 8);
        assert(front.push(last).drop_last() =~= front);
    }
}

/// IFDs follow the image data, and one another, with nothing but their values and
/// less than eight bytes of padding before each; the file ends with the last one.
#[verifier::spinoff_prover]
#[verifier::rlimit(30)]
pub proof fn law_ifds_packed(
    source: Seq<u8>,
    ifds: Seq<Ifd>,
    description: Option<Seq<char>>,
    k: int,
)
    requires
        plannable(ifds, description),
        0 <= k < ifds.len(),
    ensures
        ({
            let end = if k == 0 {
                end_before(ifds, ifds.len()) + 7
            } else {
                new_offset(ifds, description, k - 1) + 16 + 20 * new_entries(
                    ifds,
                    description,
                    k - 1,
                ).len()
            };
            new_offset(ifds, description, k) <= end + room(made_entries(ifds, description, k)) + 7
        }),
        k == ifds.len() - 1 ==> output(source, ifds, description).len() == new_offset(
            ifds,
            description,
            k,
        ) + 16 + 20 * new_entries(ifds, description, k).len(),
{
    let n = ifds.len();
    let (p, all) = image_part(ifds);
    let q = pad(p, 8);
    let (u, infos) = unlinked(ifds, description);
    let o = before_ifd(ifds, description, k);
    let places = new_places(ifds, k);
    let own = description_at(description, k);
    lemma_unlinked(source, ifds, description);
    lemma_image_end(ifds, description, n);
    law_pad(p, 8);
    assert(in_chain(
        source,
        content(source, u),
        q,
        ifds,
        all,
        description,
        infos[k],
        k,
    ));
    lemma_ifds_grow(q, ifds, all, description, 0, k as nat);
    lemma_ifds_grow(q, ifds, all, description, (k + 1) as nat, n);
    lemma_ifd_grows(o, ifds[k], places, own);
    assert forall|j: int| 0 <= j < ifds[k].entries.len() implies (
    #[trigger] ifds[k].entries[j]).fits() by {}
    lemma_all_entries_room(o, ifds[k], places, own);
    let after_values = put_all_entries(o, ifds[k], places, own).0;
    law_pad(after_values, 8);
    lemma_info_at(q, ifds, all, description, n, k);
    if k > 0 {
        assert(in_chain(
            source,
            content(source, u),
            q,
            ifds,
            all,
            description,
            infos[k - 1],
            k - 1,
        ));
    }
    if k == n - 1 {
        law_output_len(source, ifds, description);
    }
}

/// The place of an IFD is where it was written.
proof fn lemma_info_at(
    o: Out,
    ifds: Seq<Ifd>,
    all: Seq<Seq<u64>>,
    description: Option<Seq<char>>,
    n: nat,
    k: int,
)
    requires
        0 <= k < n,
    ensures
        put_ifds(o, ifds, all, description, n).1[k].0 == put_ifd(
            put_ifds(o, ifds, all, description, k as nat).0,
            ifds[k],
            all[k],
            description_at(description, k),
        ).1,
    decreases n,
{
    lemma_ifds_grow(o, ifds, all, description, n, n);
    lemma_ifds_grow(o, ifds, all, description, (n - 1) as nat, (n - 1) as nat);
    if k < n - 1 {
        lemma_info_at(o, ifds, all, description, (n - 1) as nat, k);
    }
}

} // verus!
