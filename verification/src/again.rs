//! Rewriting a file that was rewritten: nothing changes any more.
use vstd::prelude::*;

use crate::bytes::{law_le_value_of_bytes, lemma_le_limits, lemma_le_value_bound};
use crate::consolidated::block_count;
use crate::entry::{encode_ifd, well_formed, Entry};
use crate::layout::{content, copied, lemma_header, lemma_put, lemma_put_copy, lemma_put_patch,
    new_value, renewed, sound, stored};
use crate::offsets::encode_numbers;
use crate::order::{in_tag_order, law_sort_of_sorted, sort_by_tag};
use crate::process::{all_fit, all_well_formed, image_part, lemma_entries_grow, lemma_ifd_grows,
    lemma_ifds_grow, lemma_images_grow, lemma_links_stay, link_position, put_all_entries,
    put_entries, put_entry, put_ifd, put_ifds, put_images, put_links, put_strips, unlinked};
use crate::readback::{before_ifd, lemma_finished, lemma_image_copied, lemma_places_len,
    made_entries, new_entries, new_offset, new_places, output, plannable};
use crate::reader::whole;
use crate::recheck::measures_in_order;
use crate::rewrite::{law_survey_of_rewritten, lemma_surveyed, new_ifds, rewritten, surveyed};
use crate::source::{law_survey, survey_run, survey_start, Ifd, Mode, SurveyState};
use crate::writer::{pad, put, put_copy, put_header, put_patch, range_of, zeros, Out};

verus! {

/// Two outputs, made from two sources, are the same so far.
pub open spec fn alike(source: Seq<u8>, o: Out, file: Seq<u8>, p: Out) -> bool {
    &&& o.pos == p.pos
    &&& sound(source, o)
    &&& sound(file, p)
    &&& content(source, o) == content(file, p)
}

/// The same bytes are appended.
proof fn lemma_alike_put(source: Seq<u8>, o: Out, file: Seq<u8>, p: Out, bytes: Seq<u8>)
    requires
        alike(source, o, file, p),
    ensures
        alike(source, put(o, bytes), file, put(p, bytes)),
{
    lemma_put(source, o, bytes);
    lemma_put(file, p, bytes);
}

/// The same padding is appended.
proof fn lemma_alike_pad(source: Seq<u8>, o: Out, file: Seq<u8>, p: Out, alignment: int)
    requires
        alike(source, o, file, p),
    ensures
        alike(source, pad(o, alignment), file, pad(p, alignment)),
{
    if o.pos % alignment != 0 {
        lemma_alike_put(source, o, file, p, zeros((alignment - o.pos % alignment) as nat));
    }
}

/// Ranges with the same bytes are appended.
proof fn lemma_alike_copy(
    source: Seq<u8>,
    o: Out,
    file: Seq<u8>,
    p: Out,
    a: u64,
    b: u64,
    len: u64,
)
    requires
        alike(source, o, file, p),
        range_of(source, a as int, len as nat) == range_of(file, b as int, len as nat),
    ensures
        alike(source, put_copy(o, a, len), file, put_copy(p, b, len)),
{
    lemma_put_copy(source, o, a, len);
    lemma_put_copy(file, p, b, len);
}

/// Blocks of the output are copied from there as they were copied there.
proof fn lemma_same_strips(
    source: Seq<u8>,
    o: Out,
    file: Seq<u8>,
    p: Out,
    offsets: Seq<u64>,
    places: Seq<u64>,
    counts: Seq<u64>,
    n: nat,
)
    requires
        alike(source, o, file, p),
        n <= places.len(),
        forall|j: int|
            0 <= j < n ==> copied(source, file, #[trigger] places[j], offsets[j], counts[j]),
    ensures
        ({
            let (q, first) = put_strips(o, offsets, counts, n);
            let (r, second) = put_strips(p, places, counts, n);
            alike(source, q, file, r) && first == second
        }),
    decreases n,
{
    if n > 0 {
        let m = (n - 1) as nat;
        let q = put_strips(o, offsets, counts, m).0;
        let r = put_strips(p, places, counts, m).0;
        lemma_same_strips(source, o, file, p, offsets, places, counts, m);
        lemma_alike_pad(source, q, file, r, 2);
        assert(copied(source, file, places[n - 1], offsets[n - 1], counts[n - 1]));
        let place = places[n - 1] as int;
        let count = counts[n - 1];
        assert(range_of(file, place, count as nat) =~= file.subrange(place, place + count));
        lemma_alike_copy(
            source,
            pad(q, 2),
            file,
            pad(r, 2),
            offsets[n - 1],
            places[n - 1],
            count,
        );
    }
}

/// `again` is what a survey of the output finds of `ifds`, of which every block of
/// image data was copied to the output.
pub open spec fn found_again(
    source: Seq<u8>,
    file: Seq<u8>,
    ifds: Seq<Ifd>,
    again: Seq<Ifd>,
) -> bool {
    &&& again.len() == ifds.len()
    &&& forall|i: int|
        0 <= i < ifds.len() ==> {
            &&& (#[trigger] again[i]).counts == ifds[i].counts
            &&& again[i].offsets.len() == block_count(ifds[i].offsets, ifds[i].counts)
            &&& forall|j: int|
                0 <= j < again[i].offsets.len() ==> copied(
                    source,
                    file,
                    #[trigger] again[i].offsets[j],
                    ifds[i].offsets[j],
                    ifds[i].counts[j],
                )
        }
}

/// Image data of the output is copied from there as it was copied there.
proof fn lemma_same_images(
    source: Seq<u8>,
    o: Out,
    file: Seq<u8>,
    p: Out,
    ifds: Seq<Ifd>,
    again: Seq<Ifd>,
    n: nat,
)
    requires
        alike(source, o, file, p),
        found_again(source, file, ifds, again),
        n <= ifds.len(),
    ensures
        ({
            let (q, first) = put_images(o, ifds, n);
            let (r, second) = put_images(p, again, n);
            alike(source, q, file, r) && first == second
        }),
    decreases n,
{
    if n > 0 {
        let m = (n - 1) as nat;
        let ifd = ifds[n - 1];
        let other = again[n - 1];
        lemma_same_images(source, o, file, p, ifds, again, m);
        lemma_same_strips(
            source,
            put_images(o, ifds, m).0,
            file,
            put_images(p, again, m).0,
            ifd.offsets,
            other.offsets,
            ifd.counts,
            block_count(ifd.offsets, ifd.counts),
        );
    }
}

/// The new form of an entry is its own new form.
#[verifier::spinoff_prover]
proof fn lemma_same_entry(
    source: Seq<u8>,
    o: Out,
    file: Seq<u8>,
    p: Out,
    e: Entry,
    places: Seq<u64>,
    lo: int,
    hi: int,
)
    requires
        alike(source, o, file, p),
        0 <= o.pos,
        e.value.len() == 8,
        e.fits(),
        put_entry(o, e, places).0.pos <= u64::MAX,
        stored(file, put_entry(o, e, places).1, new_value(source, e, places), lo, hi),
        0 <= lo,
    ensures
        ({
            let (q, made) = put_entry(o, e, places);
            let (r, second) = put_entry(p, made, places);
            alike(source, q, file, r) && second == made
        }),
{
    let (q, made) = put_entry(o, e, places);
    lemma_alike_pad(source, o, file, p, 8);
    let a = pad(o, 8);
    let b = pad(p, 8);
    if e.locates() {
        let data = encode_numbers(places);
        lemma_alike_put(source, a, file, b, data);
    } else if !e.inline() {
        let size = e.size();
        lemma_le_limits();
        lemma_le_value_bound(e.value);
        law_le_value_of_bytes(a.pos as nat, 8);
        assert(made.offset() == a.pos);
        assert(made.size() == size);
        assert(range_of(file, a.pos, size) =~= file.subrange(a.pos, a.pos + size));
        lemma_alike_copy(source, a, file, b, e.offset() as u64, made.offset() as u64, size as u64);
    }
}

/// The new forms of entries are their own new forms.
#[verifier::spinoff_prover]
proof fn lemma_same_entries(
    source: Seq<u8>,
    o: Out,
    file: Seq<u8>,
    p: Out,
    entries: Seq<Entry>,
    made: Seq<Entry>,
    places: Seq<u64>,
    n: nat,
    lo: int,
    hi: int,
)
    requires
        alike(source, o, file, p),
        0 <= o.pos,
        n <= entries.len(),
        made.len() == entries.len(),
        made.take(n as int) == put_entries(o, entries, places, n).1,
        well_formed(entries),
        forall|j: int| 0 <= j < entries.len() ==> (#[trigger] entries[j]).fits(),
        put_entries(o, entries, places, n).0.pos <= u64::MAX,
        forall|j: int|
            0 <= j < made.len() ==> stored(
                file,
                #[trigger] made[j],
                new_value(source, entries[j], places),
                lo,
                hi,
            ),
        0 <= lo,
    ensures
        ({
            let (q, first) = put_entries(o, entries, places, n);
            let (r, second) = put_entries(p, made, places, n);
            alike(source, q, file, r) && second == first
        }),
    decreases n,
{
    if n > 0 {
        let m = (n - 1) as nat;
        let (q, front) = put_entries(o, entries, places, m);
        let e = entries[n - 1];
        let last = put_entry(q, e, places).1;
        lemma_entries_grow(o, entries, places, m, n);
        lemma_entries_grow(o, entries, places, 0, m);
        assert(made.take(n as int) == front.push(last));
        assert(made.take(m as int) =~= made.take(n as int).drop_last());
        assert(front.push(last).drop_last() =~= front);
        assert(made[n - 1] == made.take(n as int)[n - 1]);
        lemma_same_entries(source, o, file, p, entries, made, places, m, lo, hi);
        lemma_same_entry(
            source,
            q,
            file,
            put_entries(p, made, places, m).0,
            e,
            places,
            lo,
            hi,
        );
    }
}

/// Entries in order of their tags stay in that order in their new forms.
proof fn lemma_made_in_order(entries: Seq<Entry>, made: Seq<Entry>, places: Seq<u64>)
    requires
        in_tag_order(entries),
        made.len() == entries.len(),
        forall|j: int| 0 <= j < made.len() ==> renewed(entries[j], #[trigger] made[j], places),
    ensures
        sort_by_tag(made) == made,
{
    assert forall|i: int, j: int| 0 <= i < j < made.len() implies (#[trigger] made[i]).tag <= (
    #[trigger] made[j]).tag by {
        assert(entries[i].tag <= entries[j].tag);
    }
    law_sort_of_sorted(made);
}

/// `again[i]` is the IFD at index `i` as it is read from the output, and its
/// entries had been in order of their tags.
pub open spec fn read_again(ifds: Seq<Ifd>, again: Seq<Ifd>, i: int) -> bool {
    &&& in_tag_order(ifds[i].entries)
    &&& again[i].entries == new_entries(ifds, None, i)
    &&& again[i].offsets == new_places(ifds, i)
    &&& again[i].counts == ifds[i].counts
}

/// The outputs before the IFD at index `i` lie where the plan has room for it.
proof fn lemma_room(ifds: Seq<Ifd>, i: int)
    requires
        plannable(ifds, None),
        0 <= i < ifds.len(),
    ensures
        ({
            let o = before_ifd(ifds, None, i);
            &&& 0 <= o.pos
            &&& put_all_entries(o, ifds[i], new_places(ifds, i), None).0.pos <= u64::MAX
        }),
{
    let n = ifds.len();
    let (p, all) = image_part(ifds);
    let q = pad(p, 8);
    let (u, infos) = unlinked(ifds, None);
    lemma_images_grow(put_header(), ifds, 0, n);
    lemma_ifds_grow(q, ifds, all, None, 0, i as nat);
    lemma_ifds_grow(q, ifds, all, None, (i + 1) as nat, n);
    lemma_links_stay(put_patch(u, 8, infos[0].0), infos, (infos.len() - 1) as nat);
    lemma_ifd_grows(before_ifd(ifds, None, i), ifds[i], all[i], None);
}

/// An IFD of the output is written from there as it was written there.
#[verifier::spinoff_prover]
#[verifier::rlimit(30)]
proof fn lemma_same_ifd(source: Seq<u8>, file: Seq<u8>, p: Out, ifds: Seq<Ifd>, other: Ifd, i: int)
    requires
        plannable(ifds, None),
        file == output(source, ifds, None),
        0 <= i < ifds.len(),
        in_tag_order(ifds[i].entries),
        other.entries == new_entries(ifds, None, i),
        alike(source, before_ifd(ifds, None, i), file, p),
    ensures
        ({
            let first = put_ifd(before_ifd(ifds, None, i), ifds[i], new_places(ifds, i), None);
            let second = put_ifd(p, other, new_places(ifds, i), None);
            alike(source, first.0, file, second.0) && first.1 == second.1 && first.2 == second.2
        }),
{
    let o = before_ifd(ifds, None, i);
    let ifd = ifds[i];
    let places = new_places(ifds, i);
    let n = ifd.entries.len();
    let (q, made) = put_entries(o, ifd.entries, places, n);
    lemma_room(ifds, i);
    lemma_finished(source, ifds, None, i);
    assert(made == made_entries(ifds, None, i));
    assert(made.take(n as int) =~= made);
    assert forall|j: int| 0 <= j < ifd.entries.len() implies (
    #[trigger] ifd.entries[j]).fits() by {
        assert(ifds[i].entries[j].fits());
    }
    lemma_same_entries(
        source,
        o,
        file,
        p,
        ifd.entries,
        made,
        places,
        n,
        o.pos,
        new_offset(ifds, None, i) as int,
    );
    lemma_made_in_order(ifd.entries, made, places);
    let r = put_entries(p, made, places, n).0;
    lemma_alike_pad(source, q, file, r, 8);
    lemma_alike_put(source, pad(q, 8), file, pad(r, 8), encode_ifd(made, 0));
}

/// The IFDs of the output are written from there as they were written there.
#[verifier::spinoff_prover]
proof fn lemma_same_ifds(
    source: Seq<u8>,
    file: Seq<u8>,
    p: Out,
    ifds: Seq<Ifd>,
    again: Seq<Ifd>,
    n: nat,
)
    requires
        plannable(ifds, None),
        file == output(source, ifds, None),
        again.len() == ifds.len(),
        forall|i: int| 0 <= i < ifds.len() ==> #[trigger] read_again(ifds, again, i),
        alike(source, before_ifd(ifds, None, 0), file, p),
        n <= ifds.len(),
    ensures
        ({
            let (q, first) = put_ifds(
                before_ifd(ifds, None, 0),
                ifds,
                image_part(ifds).1,
                None,
                n,
            );
            let (r, second) = put_ifds(p, again, image_part(ifds).1, None, n);
            alike(source, q, file, r) && first == second
        }),
    decreases n,
{
    if n > 0 {
        let m = (n - 1) as nat;
        let all = image_part(ifds).1;
        lemma_same_ifds(source, file, p, ifds, again, m);
        assert(read_again(ifds, again, n - 1));
        lemma_same_ifd(
            source,
            file,
            put_ifds(p, again, all, None, m).0,
            ifds,
            again[n - 1],
            n - 1,
        );
    }
}

/// The same word is overwritten.
proof fn lemma_alike_patch(
    source: Seq<u8>,
    o: Out,
    file: Seq<u8>,
    p: Out,
    position: u64,
    value: u64,
)
    requires
        alike(source, o, file, p),
    ensures
        alike(source, put_patch(o, position, value), file, put_patch(p, position, value)),
{
    lemma_put_patch(source, o, position, value);
    lemma_put_patch(file, p, position, value);
}

/// The same links are entered.
proof fn lemma_same_links(
    source: Seq<u8>,
    o: Out,
    file: Seq<u8>,
    p: Out,
    infos: Seq<(u64, u64)>,
    n: nat,
)
    requires
        alike(source, o, file, p),
    ensures
        alike(source, put_links(o, infos, n), file, put_links(p, infos, n)),
    decreases n,
{
    if n > 0 {
        let m = (n - 1) as nat;
        lemma_same_links(source, o, file, p, infos, m);
        lemma_alike_patch(
            source,
            put_links(o, infos, m),
            file,
            put_links(p, infos, m),
            link_position(infos[n - 1]) as u64,
            infos[n as int].0,
        );
    }
}

/// What is found in the output can be planned, apart from its length.
#[verifier::spinoff_prover]
proof fn lemma_again_fits(source: Seq<u8>, ifds: Seq<Ifd>, again: Seq<Ifd>)
    requires
        plannable(ifds, None),
        again.len() == ifds.len(),
        forall|i: int| 0 <= i < ifds.len() ==> #[trigger] read_again(ifds, again, i),
    ensures
        all_fit(again),
        all_well_formed(again),
{
    assert forall|i: int, j: int|
        0 <= i < again.len() && 0 <= j < again[i].entries.len() implies (
    #[trigger] again[i].entries[j]).fits() && again[i].entries[j].value.len() == 8 by {
        let made = made_entries(ifds, None, i);
        assert(read_again(ifds, again, i));
        lemma_finished(source, ifds, None, i);
        lemma_made_in_order(ifds[i].entries, made, new_places(ifds, i));
        assert(renewed(ifds[i].entries[j], made[j], new_places(ifds, i)));
    }
    assert forall|i: int| 0 <= i < again.len() implies well_formed(
        (#[trigger] again[i]).entries,
    ) by {
        assert forall|j: int| 0 <= j < again[i].entries.len() implies (
        #[trigger] again[i].entries[j]).value.len() == 8 by {}
    }
}

/// Where all entries stand in order of their tags and no description is added, the
/// plan for what is found in the output makes the output again.
#[verifier::spinoff_prover]
pub proof fn law_output_again(source: Seq<u8>, ifds: Seq<Ifd>, again: Seq<Ifd>)
    requires
        plannable(ifds, None),
        again.len() == ifds.len(),
        forall|i: int| 0 <= i < ifds.len() ==> #[trigger] read_again(ifds, again, i),
    ensures
        plannable(again, None),
        output(output(source, ifds, None), again, None) == output(source, ifds, None),
{
    let file = output(source, ifds, None);
    let n = ifds.len();
    assert(found_again(source, file, ifds, again)) by {
        assert forall|i: int| 0 <= i < n implies {
            &&& (#[trigger] again[i]).counts == ifds[i].counts
            &&& again[i].offsets.len() == block_count(ifds[i].offsets, ifds[i].counts)
            &&& forall|j: int|
                0 <= j < again[i].offsets.len() ==> copied(
                    source,
                    file,
                    #[trigger] again[i].offsets[j],
                    ifds[i].offsets[j],
                    ifds[i].counts[j],
                )
        } by {
            assert(read_again(ifds, again, i));
            lemma_places_len(ifds, None, i);
            assert forall|j: int| 0 <= j < again[i].offsets.len() implies copied(
                source,
                file,
                #[trigger] again[i].offsets[j],
                ifds[i].offsets[j],
                ifds[i].counts[j],
            ) by {
                lemma_image_copied(source, ifds, None, i, j);
            }
        }
    }
    lemma_header(source);
    lemma_header(file);
    lemma_same_images(source, put_header(), file, put_header(), ifds, again, n);
    let p = image_part(ifds).0;
    let q = image_part(again).0;
    lemma_alike_pad(source, p, file, q, 8);
    lemma_same_ifds(source, file, pad(q, 8), ifds, again, n);
    let (u, infos) = unlinked(ifds, None);
    let v = unlinked(again, None).0;
    lemma_alike_patch(source, u, file, v, 8, infos[0].0);
    lemma_same_links(
        source,
        put_patch(u, 8, infos[0].0),
        file,
        put_patch(v, 8, infos[0].0),
        infos,
        (infos.len() - 1) as nat,
    );
    lemma_again_fits(source, ifds, again);
}

/// Consolidating a file that was consolidated or stripped changes nothing: where
/// every IFD of the input has its entries in order of their tags, a survey of the
/// rewritten file can be planned, and leads to the same bytes. Left out is the
/// mode that adds a description, whose text moves to its place among the values.
pub proof fn law_rewriting_twice(source: Seq<u8>, mode: Mode, n: nat, s: SurveyState)
    requires
        surveyed(source, mode, n, s),
        mode != Mode::Ome,
        forall|i: int| 0 <= i < s.ifds.len() ==> in_tag_order((#[trigger] s.ifds[i]).entries),
    ensures
        ({
            let file = rewritten(source, s);
            let steps = s.ifds.len() + 1;
            survey_run(survey_start(Mode::Consolidate), whole(file), steps) matches Ok(t) && t.next
                == Some(0u64) && surveyed(file, Mode::Consolidate, steps, t) && rewritten(file, t)
                == file
        }),
{
    let file = rewritten(source, s);
    let steps = s.ifds.len() + 1;
    let start = survey_start(Mode::Consolidate);
    lemma_surveyed(source, mode, n, s);
    assert forall|i: int| 0 <= i < s.ifds.len() implies measures_in_order(
        (#[trigger] s.ifds[i]).entries,
    ) by {
        assert(in_tag_order(s.ifds[i].entries));
    }
    law_survey_of_rewritten(source, mode, n, s);
    law_survey(file, start, steps);
    let again = new_ifds(s);
    assert forall|i: int| 0 <= i < s.ifds.len() implies #[trigger] read_again(
        s.ifds,
        again,
        i,
    ) by {
        assert(in_tag_order(s.ifds[i].entries));
    }
    law_output_again(source, s.ifds, again);
}

} // verus!
