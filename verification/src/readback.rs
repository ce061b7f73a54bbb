//! What a reader finds in the output: the same IFDs with the same values and the
//! same image data, with all IFDs behind all image data.
use vstd::prelude::*;
use vstd::utf8::encode_utf8;

use crate::bytes::{law_le_value_of_bytes, le_bytes, le_value, lemma_le_bytes_len, lemma_le_limits};
use crate::consolidated::block_count;
use crate::entry::{decode_entries, encode_entries, encode_ifd, law_decode_encoded_entries,
    lemma_encode_entries, well_formed, Entry};
use crate::error::Error;
use crate::layout::{apart, content, copied, describes, extends, in_chain, in_links,
    lemma_carried_same, lemma_header, lemma_ifds, lemma_images, lemma_images_apart, lemma_links,
    lemma_pad, lemma_put_patch, new_value, prefix, renewed, stands, stored};
use crate::offsets::{law_parse_encoded_offsets, lemma_encode_numbers, numbers};
use crate::ome::terminated;
use crate::order::{in_tag_order, law_sort_by_tag, sort_by_tag};
use crate::process::{all_fit, all_well_formed, description_at, image_part, lemma_ifds_grow,
    lemma_images_grow, lemma_links_stay, link_position, plan, put_all_entries, put_ifds, put_links,
    unlinked};
use crate::reader::{first_ifd, header_check, ifd_at, law_header, lemma_fetch_whole, value_data,
    whole, BIGTIFF_MAGIC, LITTLE_ENDIAN};
use crate::source::Ifd;
use crate::writer::{header_bytes, pad, put_header, put_patch, range_of, render, Out};

verus! {

/// The file that the plan for `ifds` makes from `source`.
pub open spec fn output(
    source: Seq<u8>,
    ifds: Seq<Ifd>,
    description: Option<Seq<char>>,
) -> Seq<u8> {
    render(source, plan(ifds, description).pieces)
}

/// Whether there is a plan.
pub open spec fn plannable(ifds: Seq<Ifd>, description: Option<Seq<char>>) -> bool {
    &&& ifds.len() > 0
    &&& all_fit(ifds)
    &&& all_well_formed(ifds)
    &&& plan(ifds, description).pos <= u64::MAX
}

/// New place of the IFD at index `i`.
pub open spec fn new_offset(ifds: Seq<Ifd>, description: Option<Seq<char>>, i: int) -> u64 {
    unlinked(ifds, description).1[i].0
}

/// Where the IFD at index `i` leads to.
pub open spec fn new_link(ifds: Seq<Ifd>, description: Option<Seq<char>>, i: int) -> u64 {
    if i + 1 < ifds.len() {
        new_offset(ifds, description, i + 1)
    } else {
        0
    }
}

/// New places of the image data of the IFD at index `i`.
pub open spec fn new_places(ifds: Seq<Ifd>, i: int) -> Seq<u64> {
    image_part(ifds).1[i]
}

/// The output before the IFD at index `i` and its values are written.
pub open spec fn before_ifd(ifds: Seq<Ifd>, description: Option<Seq<char>>, i: int) -> Out {
    put_ifds(
        pad(image_part(ifds).0, 8),
        ifds,
        image_part(ifds).1,
        description,
        i as nat,
    ).0
}

/// New entries of the IFD at index `i`: one for each entry that it had, in the
/// same order, then the description if it gets one.
pub open spec fn made_entries(
    ifds: Seq<Ifd>,
    description: Option<Seq<char>>,
    i: int,
) -> Seq<Entry> {
    put_all_entries(
        before_ifd(ifds, description, i),
        ifds[i],
        new_places(ifds, i),
        description_at(description, i),
    ).1
}

/// New entries of the IFD at index `i` in the order in which they are written.
pub open spec fn new_entries(
    ifds: Seq<Ifd>,
    description: Option<Seq<char>>,
    i: int,
) -> Seq<Entry> {
    sort_by_tag(made_entries(ifds, description, i))
}

/// The IFD at index `i` stands in the finished file.
pub open spec fn finished(
    source: Seq<u8>,
    file: Seq<u8>,
    ifds: Seq<Ifd>,
    description: Option<Seq<char>>,
    i: int,
) -> bool {
    stands(
        source,
        file,
        before_ifd(ifds, description, i),
        ifds[i],
        new_places(ifds, i),
        description_at(description, i),
        unlinked(ifds, description).1[i],
        new_link(ifds, description, i),
    )
}

/// The places that the plan gives to the IFDs, and what is written there before
/// they are linked.
#[verifier::spinoff_prover]
#[verifier::rlimit(30)]
pub proof fn lemma_unlinked(source: Seq<u8>, ifds: Seq<Ifd>, description: Option<Seq<char>>)
    requires
        plannable(ifds, description),
    ensures
        ({
            let (p, all) = image_part(ifds);
            let (u, infos) = unlinked(ifds, description);
            &&& 16 <= p.pos
            &&& extends(source, put_header(), u)
            &&& extends(source, p, u)
            &&& u.pos == plan(ifds, description).pos
            &&& all.len() == ifds.len()
            &&& infos.len() == ifds.len()
            &&& apart(infos)
            &&& forall|i: int|
                0 <= i < ifds.len() ==> p.pos <= (#[trigger] infos[i]).0 && in_chain(
                    source,
                    content(source, u),
                    pad(p, 8),
                    ifds,
                    all,
                    description,
                    infos[i],
                    i,
                )
        }),
{
    let n = ifds.len();
    let (p, all) = image_part(ifds);
    let q = pad(p, 8);
    let (u, infos) = unlinked(ifds, description);
    lemma_header(source);
    lemma_links_stay(put_patch(u, 8, infos[0].0), infos, (infos.len() - 1) as nat);
    lemma_ifds_grow(q, ifds, all, description, 0, n);
    lemma_images_grow(put_header(), ifds, 0, n);
    lemma_images(source, put_header(), ifds, n);
    lemma_pad(source, p, 8);
    lemma_ifds(source, q, ifds, all, description, n);
    assert forall|i: int, j: int| 0 <= i < j < infos.len() implies link_position(
        #[trigger] infos[i],
    ) + 8 <= (#[trigger] infos[j]).0 by {
        lemma_ifds_grow(q, ifds, all, description, (i + 1) as nat, j as nat);
        assert(in_chain(source, content(source, u), q, ifds, all, description, infos[i], i));
        assert(in_chain(source, content(source, u), q, ifds, all, description, infos[j], j));
    }
}

/// Linking changes only the word in the header and the links of all IFDs but the
/// last.
#[verifier::spinoff_prover]
#[verifier::rlimit(30)]
proof fn lemma_linked(source: Seq<u8>, ifds: Seq<Ifd>, description: Option<Seq<char>>)
    requires
        plannable(ifds, description),
    ensures
        ({
            let (u, infos) = unlinked(ifds, description);
            let c = content(source, u);
            let file = output(source, ifds, description);
            &&& file.len() == c.len() == u.pos
            &&& forall|k: int|
                0 <= k < c.len() && !(8 <= k < 16) && !in_links(infos, (ifds.len() - 1) as nat, k)
                    ==> #[trigger] file[k] == c[k]
            &&& file.subrange(8, 16) == le_bytes(infos[0].0 as nat, 8)
            &&& forall|i: int|
                0 <= i < ifds.len() - 1 ==> file.subrange(
                    link_position(#[trigger] infos[i]),
                    link_position(infos[i]) + 8,
                ) == le_bytes(infos[i + 1].0 as nat, 8)
        }),
{
    let n = (ifds.len() - 1) as nat;
    let (u, infos) = unlinked(ifds, description);
    let c = content(source, u);
    let h = put_patch(u, 8, infos[0].0);
    let d = content(source, h);
    let file = output(source, ifds, description);
    lemma_unlinked(source, ifds, description);
    lemma_put_patch(source, u, 8, infos[0].0);
    lemma_le_bytes_len(infos[0].0 as nat, 8);
    assert(infos[0].0 >= 16);
    assert forall|i: int| 0 <= i < infos.len() implies link_position(#[trigger] infos[i]) + 8
        <= content(source, h).len() <= u64::MAX by {
        assert(in_chain(
            source,
            c,
            pad(image_part(ifds).0, 8),
            ifds,
            image_part(ifds).1,
            description,
            infos[i],
            i,
        ));
    }
    lemma_links(source, h, infos, n);
    assert(file == content(source, put_links(h, infos, n)));
    assert forall|k: int| 8 <= k < 16 implies !in_links(infos, n, k) by {
        assert forall|i: int| 0 <= i < n implies !(link_position(#[trigger] infos[i]) <= k
            < link_position(infos[i]) + 8) by {
            assert(infos[i].0 >= 16);
        }
    }
    assert(file.subrange(8, 16) =~= le_bytes(infos[0].0 as nat, 8)) by {
        assert forall|k: int| 0 <= k < 8 implies #[trigger] file.subrange(8, 16)[k] == le_bytes(
            infos[0].0 as nat,
            8,
        )[k] by {
            assert(!in_links(infos, n, 8 + k));
            assert(file[8 + k] == d[8 + k]);
        }
    }
}

/// An IFD with another link.
proof fn lemma_relinked(
    c: Seq<u8>,
    d: Seq<u8>,
    start: int,
    at: int,
    entries: Seq<Entry>,
    link: u64,
)
    requires
        well_formed(entries),
        0 <= start,
        at == start + 8 + 20 * entries.len(),
        at + 8 <= c.len(),
        at + 8 <= d.len(),
        c.subrange(start, at + 8) == encode_ifd(entries, 0),
        d.subrange(start, at) == c.subrange(start, at),
        d.subrange(at, at + 8) == le_bytes(link as nat, 8),
    ensures
        d.subrange(start, at + 8) == encode_ifd(entries, link as nat),
{
    lemma_encode_entries(entries);
    lemma_le_bytes_len(entries.len(), 8);
    lemma_le_bytes_len(0, 8);
    lemma_le_bytes_len(link as nat, 8);
    let table = le_bytes(entries.len(), 8) + encode_entries(entries);
    assert(encode_ifd(entries, 0).take(at - start) =~= table);
    assert(c.subrange(start, at + 8).take(at - start) =~= c.subrange(start, at));
    assert(d.subrange(start, at + 8) =~= d.subrange(start, at) + d.subrange(at, at + 8));
}

/// Every IFD stands in the finished file and leads to the next one.
#[verifier::spinoff_prover]
#[verifier::rlimit(80)]
pub proof fn lemma_finished(
    source: Seq<u8>,
    ifds: Seq<Ifd>,
    description: Option<Seq<char>>,
    i: int,
)
    requires
        plannable(ifds, description),
        0 <= i < ifds.len(),
    ensures
        finished(source, output(source, ifds, description), ifds, description, i),
{
    let n = (ifds.len() - 1) as nat;
    let (p, all) = image_part(ifds);
    let q = pad(p, 8);
    let (u, infos) = unlinked(ifds, description);
    let c = content(source, u);
    let file = output(source, ifds, description);
    let info = infos[i];
    let before = before_ifd(ifds, description, i);
    let made = made_entries(ifds, description, i);
    let entries = new_entries(ifds, description, i);
    let link = new_link(ifds, description, i);
    lemma_unlinked(source, ifds, description);
    lemma_linked(source, ifds, description);
    assert(in_chain(source, c, q, ifds, all, description, info, i));
    assert forall|k: int| before.pos <= k < link_position(info) implies #[trigger] file[k]
        == c[k] by {
        assert forall|l: int| 0 <= l < n implies !(link_position(#[trigger] infos[l]) <= k
            < link_position(infos[l]) + 8) by {
            if l < i {
                assert(in_chain(source, c, q, ifds, all, description, infos[l], l));
                lemma_ifds_grow(q, ifds, all, description, (l + 1) as nat, i as nat);
            } else if l > i {
                assert(link_position(info) + 8 <= infos[l].0);
            }
        }
        assert(!in_links(infos, n, k));
    }
    lemma_carried_same(
        source,
        c,
        file,
        ifds[i],
        all[i],
        description_at(description, i),
        made,
        before.pos,
        info.0 as int,
        info.0 as int,
    );
    let start = info.0 as int;
    let at = link_position(info);
    assert(file.subrange(start, at) =~= c.subrange(start, at));
    if i == n {
        assert forall|k: int| at <= k < at + 8 implies #[trigger] file[k] == c[k] by {
            assert forall|l: int| 0 <= l < n implies !(link_position(#[trigger] infos[l]) <= k
                < link_position(infos[l]) + 8) by {
                assert(link_position(infos[l]) + 8 <= infos[i].0);
            }
            assert(!in_links(infos, n, k));
        }
        assert(file.subrange(start, at + 8) =~= c.subrange(start, at + 8));
    } else {
        lemma_relinked(c, file, start, at, entries, link);
    }
}

/// The output is as long as the plan says.
pub proof fn law_output_len(source: Seq<u8>, ifds: Seq<Ifd>, description: Option<Seq<char>>)
    requires
        plannable(ifds, description),
    ensures
        output(source, ifds, description).len() == plan(ifds, description).pos,
{
    lemma_unlinked(source, ifds, description);
    lemma_linked(source, ifds, description);
}

/// The header that is written is that of a BigTIFF file.
proof fn lemma_header_is_valid()
    ensures
        header_check(header_bytes().take(8)) == Ok::<(), Error>(()),
{
    lemma_le_limits();
    lemma_le_bytes_len(LITTLE_ENDIAN as nat, 2);
    lemma_le_bytes_len(BIGTIFF_MAGIC as nat, 2);
    lemma_le_bytes_len(8, 2);
    lemma_le_bytes_len(0, 2);
    lemma_le_bytes_len(0, 8);
    law_le_value_of_bytes(LITTLE_ENDIAN as nat, 2);
    law_le_value_of_bytes(BIGTIFF_MAGIC as nat, 2);
    law_le_value_of_bytes(8, 2);
    let head = header_bytes().take(8);
    assert(head.subrange(0, 2) =~= le_bytes(LITTLE_ENDIAN as nat, 2));
    assert(head.subrange(2, 4) =~= le_bytes(BIGTIFF_MAGIC as nat, 2));
    assert(head.subrange(4, 6) =~= le_bytes(8, 2));
}

/// The bytes before the place of the first IFD.
proof fn lemma_header_literal()
    ensures
        header_bytes().take(8) == seq![0x49u8, 0x49, 43, 0, 8, 0, 0, 0],
{
    let head = header_bytes().take(8);
    lemma_le_bytes_len(LITTLE_ENDIAN as nat, 2);
    lemma_le_bytes_len(BIGTIFF_MAGIC as nat, 2);
    lemma_le_bytes_len(8, 2);
    lemma_le_bytes_len(0, 2);
    lemma_le_bytes_len(0, 8);
    lemma_header_is_valid();
    law_header(head);
    let zero = le_bytes(0, 2);
    assert(zero =~= seq![0u8, 0u8]) by {
        reveal_with_fuel(le_bytes, 3);
    }
    assert(head[6] == zero[0] && head[7] == zero[1]);
    assert(head =~= seq![0x49u8, 0x49, 43, 0, 8, 0, 0, 0]);
}

/// The output is a BigTIFF file whose header leads to the first IFD.
#[verifier::spinoff_prover]
#[verifier::rlimit(30)]
pub proof fn law_output_header(source: Seq<u8>, ifds: Seq<Ifd>, description: Option<Seq<char>>)
    requires
        plannable(ifds, description),
    ensures
        output(source, ifds, description).take(8) == seq![0x49u8, 0x49, 43, 0, 8, 0, 0, 0],
        header_check(output(source, ifds, description).take(8)) == Ok::<(), Error>(()),
        first_ifd(whole(output(source, ifds, description))) == Ok::<u64, Error>(
            new_offset(ifds, description, 0),
        ),
{
    let file = output(source, ifds, description);
    let (u, infos) = unlinked(ifds, description);
    let c = content(source, u);
    lemma_unlinked(source, ifds, description);
    lemma_linked(source, ifds, description);
    lemma_header(source);
    lemma_le_limits();
    law_le_value_of_bytes(infos[0].0 as nat, 8);
    let n = (ifds.len() - 1) as nat;
    assert forall|k: int| 0 <= k < 8 implies #[trigger] file[k] == header_bytes()[k] by {
        assert forall|l: int| 0 <= l < n implies !(link_position(#[trigger] infos[l]) <= k
            < link_position(infos[l]) + 8) by {}
        assert(!in_links(infos, n, k));
        assert(file[k] == c[k]);
    }
    assert(file.take(8) =~= header_bytes().take(8));
    lemma_header_is_valid();
    lemma_header_literal();
    lemma_fetch_whole(file, 8, 8);
}

/// The parts of an encoded IFD.
proof fn lemma_ifd_parts(entries: Seq<Entry>, link: u64)
    requires
        well_formed(entries),
    ensures
        ({
            let n = entries.len() as int;
            let bytes = encode_ifd(entries, link as nat);
            &&& bytes.len() == 16 + 20 * n
            &&& bytes.subrange(0, 8) == le_bytes(entries.len(), 8)
            &&& bytes.subrange(8, 8 + 20 * n) == encode_entries(entries)
            &&& bytes.subrange(8 + 20 * n, 16 + 20 * n) == le_bytes(link as nat, 8)
        }),
{
    let n = entries.len() as int;
    let bytes = encode_ifd(entries, link as nat);
    lemma_le_bytes_len(entries.len(), 8);
    lemma_le_bytes_len(link as nat, 8);
    lemma_encode_entries(entries);
    assert(bytes.subrange(0, 8) =~= le_bytes(entries.len(), 8));
    assert(bytes.subrange(8, 8 + 20 * n) =~= encode_entries(entries));
    assert(bytes.subrange(8 + 20 * n, 16 + 20 * n) =~= le_bytes(link as nat, 8));
}

/// An IFD is read back as it was written, wherever it stands in a file.
#[verifier::spinoff_prover]
pub proof fn law_read_written_ifd(file: Seq<u8>, offset: u64, entries: Seq<Entry>, link: u64)
    requires
        well_formed(entries),
        offset + 16 + 20 * entries.len() <= file.len() <= u64::MAX,
        file.subrange(offset as int, offset + 16 + 20 * entries.len()) == encode_ifd(
            entries,
            link as nat,
        ),
    ensures
        ifd_at(whole(file), offset) == Ok::<(Seq<Entry>, u64), Error>((entries, link)),
{
    let n = entries.len() as int;
    let start = offset as int;
    let bytes = encode_ifd(entries, link as nat);
    let head = file.subrange(start, start + 8);
    let table = file.subrange(start + 8, start + 8 + (20 * n + 8));
    lemma_ifd_parts(entries, link);
    assert(le_value(head) == n) by {
        lemma_le_limits();
        law_le_value_of_bytes(entries.len(), 8);
        assert(head =~= bytes.subrange(0, 8));
    }
    assert(le_value(table.subrange(20 * n, 20 * n + 8)) == link) by {
        lemma_le_limits();
        law_le_value_of_bytes(link as nat, 8);
        assert(table.subrange(20 * n, 20 * n + 8) =~= bytes.subrange(8 + 20 * n, 16 + 20 * n));
    }
    assert(decode_entries(table, entries.len()) == entries) by {
        assert(table.take(20 * n) =~= bytes.subrange(8, 8 + 20 * n));
        law_decode_encoded_entries(entries, table);
    }
    lemma_fetch_whole(file, start, 8);
    lemma_fetch_whole(file, start + 8, 20 * n + 8);
}

/// At its new place an IFD of the output is read back with its new entries, and
/// leads to the IFD after it; the last one ends the chain.
#[verifier::spinoff_prover]
#[verifier::rlimit(30)]
pub proof fn law_output_ifd(
    source: Seq<u8>,
    ifds: Seq<Ifd>,
    description: Option<Seq<char>>,
    i: int,
)
    requires
        plannable(ifds, description),
        0 <= i < ifds.len(),
    ensures
        ifd_at(whole(output(source, ifds, description)), new_offset(ifds, description, i)) == Ok::<
            (Seq<Entry>, u64),
            Error,
        >((new_entries(ifds, description, i), new_link(ifds, description, i))),
{
    let file = output(source, ifds, description);
    let info = unlinked(ifds, description).1[i];
    let entries = new_entries(ifds, description, i);
    let link = new_link(ifds, description, i);
    lemma_finished(source, ifds, description, i);
    law_output_len(source, ifds, description);
    law_read_written_ifd(file, info.0, entries, link);
}

/// Where a value stands it is read back.
pub proof fn lemma_read_stored(file: Seq<u8>, e: Entry, v: Seq<u8>, lo: int, hi: int)
    requires
        stored(file, e, v, lo, hi),
    ensures
        value_data(whole(file), e) == Ok::<Seq<u8>, Error>(v),
{
    lemma_fetch_whole(file, e.offset() as int, e.size() as int);
}

/// The entries of an IFD of the output are the new forms of those that it had,
/// and the description if it gets one, in order of their tags.
#[verifier::spinoff_prover]
#[verifier::rlimit(30)]
pub proof fn law_output_entries(ifds: Seq<Ifd>, description: Option<Seq<char>>, i: int)
    requires
        plannable(ifds, description),
        0 <= i < ifds.len(),
    ensures
        new_entries(ifds, description, i).to_multiset() == made_entries(
            ifds,
            description,
            i,
        ).to_multiset(),
        made_entries(ifds, description, i).len() == ifds[i].entries.len() + if i == 0
            && description is Some {
            1int
        } else {
            0
        },
        in_tag_order(new_entries(ifds, description, i)),
{
    lemma_finished(Seq::empty(), ifds, description, i);
    law_sort_by_tag(made_entries(ifds, description, i), 0);
}

/// Every entry that is kept is found in the output with the same tag. One that
/// locates image data gives the new places; any other has the same type, count
/// and value.
#[verifier::spinoff_prover]
#[verifier::rlimit(30)]
pub proof fn law_output_entry(
    source: Seq<u8>,
    ifds: Seq<Ifd>,
    description: Option<Seq<char>>,
    i: int,
    j: int,
)
    requires
        plannable(ifds, description),
        0 <= i < ifds.len(),
        0 <= j < ifds[i].entries.len(),
    ensures
        ({
            let e = ifds[i].entries[j];
            let made = made_entries(ifds, description, i)[j];
            let places = new_places(ifds, i);
            let found = value_data(whole(output(source, ifds, description)), made);
            &&& new_entries(ifds, description, i).contains(made)
            &&& renewed(e, made, places)
            &&& !made.inline() ==> made.offset() % 8 == 0
            &&& e.locates() ==> found is Ok && numbers(
                found->Ok_0,
                made.typ,
                made.count as nat,
            ) == places
            &&& !e.locates() && value_data(whole(source), e) is Ok ==> found == value_data(
                whole(source),
                e,
            )
        }),
{
    broadcast use vstd::seq_lib::group_to_multiset_ensures;

    let file = output(source, ifds, description);
    let e = ifds[i].entries[j];
    let all = made_entries(ifds, description, i);
    let sorted = new_entries(ifds, description, i);
    let made = all[j];
    let places = new_places(ifds, i);
    let v = new_value(source, e, places);
    lemma_finished(source, ifds, description, i);
    law_output_entries(ifds, description, i);
    assert(renewed(e, made, places));
    assert(all.contains(made));
    assert(sorted.to_multiset().count(made) > 0);
    lemma_read_stored(
        file,
        made,
        v,
        before_ifd(ifds, description, i).pos,
        unlinked(ifds, description).1[i].0 as int,
    );
    if e.locates() {
        lemma_encode_numbers(places);
        assert(v.take(8 * places.len() as int) =~= v);
        law_parse_encoded_offsets(places, v);
    } else if value_data(whole(source), e) is Ok && !e.inline() {
        lemma_fetch_whole(source, e.offset() as int, e.size() as int);
        assert(v =~= source.subrange(e.offset() as int, (e.offset() + e.size()) as int));
    }
}

/// The description stands in the first IFD of the output.
#[verifier::spinoff_prover]
#[verifier::rlimit(30)]
pub proof fn law_output_description(source: Seq<u8>, ifds: Seq<Ifd>, text: Seq<char>)
    requires
        plannable(ifds, Some(text)),
    ensures
        ({
            let made = made_entries(ifds, Some(text), 0).last();
            let bytes = encode_utf8(text).push(0);
            &&& new_entries(ifds, Some(text), 0).contains(made)
            &&& describes(made, text)
            &&& made.tag == 270 && made.typ == 2 && made.count == bytes.len()
            &&& value_data(whole(output(source, ifds, Some(text))), made) == Ok::<Seq<u8>, Error>(
                bytes,
            )
        }),
{
    broadcast use vstd::seq_lib::group_to_multiset_ensures;

    let description = Some(text);
    let all = made_entries(ifds, description, 0);
    lemma_finished(source, ifds, description, 0);
    law_output_entries(ifds, description, 0);
    assert(all.contains(all.last()));
    assert(new_entries(ifds, description, 0).to_multiset().count(all.last()) > 0);
    lemma_read_stored(
        output(source, ifds, description),
        all.last(),
        terminated(text),
        before_ifd(ifds, description, 0).pos,
        unlinked(ifds, description).1[0].0 as int,
    );
}

/// Linking does not touch the image data.
#[verifier::spinoff_prover]
#[verifier::rlimit(30)]
proof fn lemma_image_part_kept(
    source: Seq<u8>,
    ifds: Seq<Ifd>,
    description: Option<Seq<char>>,
    a: int,
    b: int,
)
    requires
        plannable(ifds, description),
        16 <= a <= b <= image_part(ifds).0.pos,
    ensures
        ({
            let file = output(source, ifds, description);
            &&& b <= file.len()
            &&& file.subrange(a, b) == content(source, image_part(ifds).0).subrange(a, b)
        }),
{
    let file = output(source, ifds, description);
    let p = image_part(ifds).0;
    let (u, infos) = unlinked(ifds, description);
    let n = (ifds.len() - 1) as nat;
    lemma_unlinked(source, ifds, description);
    lemma_linked(source, ifds, description);
    let c = content(source, p);
    let d = content(source, u);
    assert(prefix(c, d));
    assert forall|k: int| a <= k < b implies #[trigger] file[k] == c[k] by {
        assert(!in_links(infos, n, k)) by {
            assert forall|l: int| 0 <= l < n implies !(link_position(#[trigger] infos[l]) <= k
                < link_position(infos[l]) + 8) by {
                assert(p.pos <= infos[l].0);
            }
        }
        assert(d[k] == c[k]);
        assert(file[k] == d[k]);
    }
    assert(file.subrange(a, b) =~= c.subrange(a, b));
}

/// Every block of image data is copied to its new place.
#[verifier::spinoff_prover]
pub proof fn lemma_image_copied(
    source: Seq<u8>,
    ifds: Seq<Ifd>,
    description: Option<Seq<char>>,
    i: int,
    j: int,
)
    requires
        plannable(ifds, description),
        0 <= i < ifds.len(),
        0 <= j < ifds[i].offsets.len(),
        j < ifds[i].counts.len(),
    ensures
        copied(
            source,
            output(source, ifds, description),
            new_places(ifds, i)[j],
            ifds[i].offsets[j],
            ifds[i].counts[j],
        ),
{
    let place = new_places(ifds, i)[j] as int;
    lemma_placed(source, ifds, description, i, j);
    lemma_image_part_kept(source, ifds, description, place, place + ifds[i].counts[j]);
}

/// Every block of image data that has a place and a size is found at its new
/// place, which is even and lies behind the header; there are no other places.
#[verifier::spinoff_prover]
pub proof fn law_output_image(
    source: Seq<u8>,
    ifds: Seq<Ifd>,
    description: Option<Seq<char>>,
    i: int,
    j: int,
)
    requires
        plannable(ifds, description),
        0 <= i < ifds.len(),
        0 <= j < ifds[i].offsets.len(),
        j < ifds[i].counts.len(),
        ifds[i].offsets[j] + ifds[i].counts[j] <= source.len(),
    ensures
        ({
            let file = output(source, ifds, description);
            let place = new_places(ifds, i)[j] as int;
            let offset = ifds[i].offsets[j] as int;
            let count = ifds[i].counts[j] as int;
            &&& new_places(ifds, i).len() == if ifds[i].offsets.len() <= ifds[i].counts.len() {
                ifds[i].offsets.len()
            } else {
                ifds[i].counts.len()
            }
            &&& 16 <= place && place + count <= file.len()
            &&& place % 2 == 0
            &&& file.subrange(place, place + count) == source.subrange(offset, offset + count)
        }),
{
    let offset = ifds[i].offsets[j] as int;
    let count = ifds[i].counts[j] as int;
    lemma_placed(source, ifds, description, i, j);
    lemma_image_copied(source, ifds, description, i, j);
    assert(range_of(source, offset, count as nat) =~= source.subrange(offset, offset + count));
}

/// Every block that has a place and a size gets a new place.
#[verifier::spinoff_prover]
#[verifier::rlimit(30)]
pub proof fn lemma_places_len(ifds: Seq<Ifd>, description: Option<Seq<char>>, i: int)
    requires
        plannable(ifds, description),
        0 <= i < ifds.len(),
    ensures
        new_places(ifds, i).len() == if ifds[i].offsets.len() <= ifds[i].counts.len() {
            ifds[i].offsets.len()
        } else {
            ifds[i].counts.len()
        },
{
    let source = Seq::<u8>::empty();
    lemma_header(source);
    lemma_unlinked(source, ifds, description);
    lemma_images(source, put_header(), ifds, ifds.len());
    assert(image_part(ifds).1[i].len() == block_count(ifds[i].offsets, ifds[i].counts));
}

/// Where a block of image data is copied to.
#[verifier::spinoff_prover]
#[verifier::rlimit(30)]
pub proof fn lemma_placed(
    source: Seq<u8>,
    ifds: Seq<Ifd>,
    description: Option<Seq<char>>,
    i: int,
    j: int,
)
    requires
        plannable(ifds, description),
        0 <= i < ifds.len(),
        0 <= j < ifds[i].offsets.len(),
        j < ifds[i].counts.len(),
    ensures
        ({
            let (p, all) = image_part(ifds);
            &&& all[i].len() == block_count(ifds[i].offsets, ifds[i].counts)
            &&& 16 <= all[i][j]
            &&& all[i][j] % 2 == 0
            &&& all[i][j] + ifds[i].counts[j] <= p.pos
            &&& copied(
                source,
                content(source, p),
                all[i][j],
                ifds[i].offsets[j],
                ifds[i].counts[j],
            )
        }),
{
    let (p, all) = image_part(ifds);
    lemma_header(source);
    lemma_unlinked(source, ifds, description);
    lemma_images(source, put_header(), ifds, ifds.len());
    assert(all[i].len() == block_count(ifds[i].offsets, ifds[i].counts));
    assert(16 <= all[i][j]);
}

/// Every IFD of the output stands behind all image data.
#[verifier::spinoff_prover]
#[verifier::rlimit(30)]
pub proof fn law_output_order(
    ifds: Seq<Ifd>,
    description: Option<Seq<char>>,
    i: int,
    j: int,
    k: int,
)
    requires
        plannable(ifds, description),
        0 <= i < ifds.len(),
        0 <= j < ifds[i].offsets.len(),
        j < ifds[i].counts.len(),
        0 <= k < ifds.len(),
    ensures
        new_places(ifds, i)[j] + ifds[i].counts[j] <= new_offset(ifds, description, k),
{
    let infos = unlinked(ifds, description).1;
    let source = Seq::<u8>::empty();
    lemma_placed(source, ifds, description, i, j);
    lemma_unlinked(source, ifds, description);
    assert(image_part(ifds).0.pos <= infos[k].0);
}

/// No two blocks of image data of the output overlap: each ends before the next
/// one, of the same IFD or of a later one, begins.
#[verifier::spinoff_prover]
pub proof fn law_output_blocks_apart(
    ifds: Seq<Ifd>,
    description: Option<Seq<char>>,
    i: int,
    j: int,
    k: int,
    l: int,
)
    requires
        plannable(ifds, description),
        0 <= i <= k < ifds.len(),
        0 <= j < ifds[i].offsets.len(),
        j < ifds[i].counts.len(),
        0 <= l < ifds[k].offsets.len(),
        l < ifds[k].counts.len(),
        i < k || j < l,
    ensures
        new_places(ifds, i)[j] + ifds[i].counts[j] <= new_places(ifds, k)[l],
{
    let source = Seq::<u8>::empty();
    lemma_header(source);
    lemma_unlinked(source, ifds, description);
    lemma_images_apart(source, put_header(), ifds, ifds.len(), i, j, k, l);
}

/// The IFDs of the output stand in the order of the chain, each at a place
/// divisible by eight behind the header.
#[verifier::spinoff_prover]
#[verifier::rlimit(30)]
pub proof fn law_output_places(ifds: Seq<Ifd>, description: Option<Seq<char>>, i: int, k: int)
    requires
        plannable(ifds, description),
        0 <= i <= k < ifds.len(),
    ensures
        16 <= new_offset(ifds, description, i),
        new_offset(ifds, description, i) % 8 == 0,
        i < k ==> new_offset(ifds, description, i) < new_offset(ifds, description, k),
{
    let infos = unlinked(ifds, description).1;
    let source = Seq::<u8>::empty();
    lemma_unlinked(source, ifds, description);
    lemma_finished(source, ifds, description, i);
    assert(image_part(ifds).0.pos <= infos[i].0);
    if i < k {
        assert(link_position(infos[i]) + 8 <= infos[k].0);
    }
}

} // verus!
