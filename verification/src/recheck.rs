//! The output passes the check for being consolidated, and its image data is
//! found where it was put.
use vstd::prelude::*;

use crate::consolidated::{block_count, check_run, check_start, meet_ifd, scan_blocks, CheckState,
    Progress, Scan, Tally};
use crate::entry::{ASCII, Entry};
use crate::error::Error;
use crate::layout::{new_value, renewed};
use crate::metadata::{lossy_text, metadata_of, name_of, trim_nul};
use crate::offsets::{law_parse_encoded_offsets, lemma_encode_numbers, numbers};
use crate::order::{insert_by_tag, sort_by_tag};
use crate::process::description_at;
use crate::readback::{before_ifd, law_output_header, law_output_ifd, law_output_order,
    law_output_places, lemma_finished, lemma_places_len, lemma_read_stored, made_entries,
    new_entries, new_link, new_offset, new_places, output, plannable};
use crate::reader::{blocks, lemma_fetch_whole, value_data, whole, Extent};
use crate::source::{read_from, Ifd};
use crate::writer::range_of;

verus! {

/// `t` holds the new forms of the entries of `s`, with the values that they have
/// to have.
pub open spec fn twins(
    source: Seq<u8>,
    file: Seq<u8>,
    places: Seq<u64>,
    s: Seq<Entry>,
    t: Seq<Entry>,
) -> bool {
    &&& s.len() == t.len()
    &&& forall|j: int|
        0 <= j < s.len() ==> {
            &&& renewed(s[j], #[trigger] t[j], places)
            &&& value_data(whole(file), t[j]) == Ok::<Seq<u8>, Error>(
                new_value(source, s[j], places),
            )
        }
}

/// Without their last entries, twins are twins.
proof fn lemma_twins_front(
    source: Seq<u8>,
    file: Seq<u8>,
    places: Seq<u64>,
    s: Seq<Entry>,
    t: Seq<Entry>,
)
    requires
        s.len() > 0,
        twins(source, file, places, s, t),
    ensures
        twins(source, file, places, s.drop_last(), t.drop_last()),
        renewed(s.last(), t.last(), places),
        value_data(whole(file), t.last()) == Ok::<Seq<u8>, Error>(
            new_value(source, s.last(), places),
        ),
{
    assert forall|j: int| 0 <= j < s.drop_last().len() implies {
        &&& renewed(s.drop_last()[j], #[trigger] t.drop_last()[j], places)
        &&& value_data(whole(file), t.drop_last()[j]) == Ok::<Seq<u8>, Error>(
            new_value(source, s.drop_last()[j], places),
        )
    } by {
        assert(t.drop_last()[j] == t[j]);
    }
    assert(t.last() == t[t.len() - 1]);
}

/// Twins are put in the same place.
proof fn lemma_insert_twins(
    source: Seq<u8>,
    file: Seq<u8>,
    places: Seq<u64>,
    s: Seq<Entry>,
    t: Seq<Entry>,
    e: Entry,
    f: Entry,
)
    requires
        twins(source, file, places, s, t),
        renewed(e, f, places),
        value_data(whole(file), f) == Ok::<Seq<u8>, Error>(new_value(source, e, places)),
    ensures
        twins(source, file, places, insert_by_tag(s, e), insert_by_tag(t, f)),
    decreases s.len(),
{
    if s.len() > 0 {
        lemma_twins_front(source, file, places, s, t);
        if s.last().tag > e.tag {
            lemma_insert_twins(source, file, places, s.drop_last(), t.drop_last(), e, f);
        }
    }
}

/// Twins are sorted alike.
proof fn lemma_sort_twins(
    source: Seq<u8>,
    file: Seq<u8>,
    places: Seq<u64>,
    s: Seq<Entry>,
    t: Seq<Entry>,
)
    requires
        twins(source, file, places, s, t),
    ensures
        twins(source, file, places, sort_by_tag(s), sort_by_tag(t)),
    decreases s.len(),
{
    if s.len() > 0 {
        lemma_twins_front(source, file, places, s, t);
        lemma_sort_twins(source, file, places, s.drop_last(), t.drop_last());
        lemma_insert_twins(
            source,
            file,
            places,
            sort_by_tag(s.drop_last()),
            sort_by_tag(t.drop_last()),
            s.last(),
            t.last(),
        );
    }
}

/// An entry that has nothing to do with image data does not matter for it.
proof fn lemma_blocks_insert(store: Seq<Extent>, s: Seq<Entry>, e: Entry)
    requires
        !e.locates(),
        !e.measures(),
    ensures
        blocks(store, insert_by_tag(s, e)) == blocks(store, s),
    decreases s.len(),
{
    assert(s.push(e).drop_last() =~= s);
    if s.len() > 0 && s.last().tag > e.tag {
        let inner = insert_by_tag(s.drop_last(), e);
        lemma_blocks_insert(store, s.drop_last(), e);
        assert(inner.push(s.last()).drop_last() =~= inner);
    }
}

/// Whether some entry locates image data.
pub open spec fn has_places(s: Seq<Entry>) -> bool
    decreases s.len(),
{
    s.len() > 0 && (s.last().locates() || has_places(s.drop_last()))
}

/// Where no entry locates image data there are no places.
proof fn lemma_no_places(store: Seq<Extent>, s: Seq<Entry>)
    requires
        !has_places(s),
    ensures
        blocks(store, s) matches Ok((offsets, counts)) ==> offsets.len() == 0,
    decreases s.len(),
{
    if s.len() > 0 {
        lemma_no_places(store, s.drop_last());
    }
}

/// Sorting loses no entry that locates image data.
proof fn lemma_sort_has_places(s: Seq<Entry>)
    ensures
        has_places(sort_by_tag(s)) == has_places(s),
    decreases s.len(),
{
    if s.len() > 0 {
        lemma_sort_has_places(s.drop_last());
        lemma_insert_has_places(sort_by_tag(s.drop_last()), s.last());
    }
}

/// Insertion loses no entry that locates image data.
proof fn lemma_insert_has_places(s: Seq<Entry>, e: Entry)
    ensures
        has_places(insert_by_tag(s, e)) == (has_places(s) || e.locates()),
    decreases s.len(),
{
    assert(s.push(e).drop_last() =~= s);
    if s.len() > 0 && s.last().tag > e.tag {
        let inner = insert_by_tag(s.drop_last(), e);
        lemma_insert_has_places(s.drop_last(), e);
        assert(inner.push(s.last()).drop_last() =~= inner);
    }
}

/// Twins give the new places and the old sizes.
proof fn lemma_blocks_twins(
    source: Seq<u8>,
    file: Seq<u8>,
    places: Seq<u64>,
    s: Seq<Entry>,
    t: Seq<Entry>,
)
    requires
        twins(source, file, places, s, t),
    ensures
        blocks(whole(source), s) matches Ok((offsets, counts)) ==> blocks(whole(file), t) == Ok::<
            (Seq<u64>, Seq<u64>),
            Error,
        >(
            (
                if has_places(s) {
                    places
                } else {
                    Seq::empty()
                },
                counts,
            ),
        ),
    decreases s.len(),
{
    if s.len() > 0 {
        let e = s.last();
        lemma_twins_front(source, file, places, s, t);
        lemma_blocks_twins(source, file, places, s.drop_last(), t.drop_last());
        if e.locates() {
            let v = new_value(source, e, places);
            lemma_encode_numbers(places);
            assert(v.take(8 * places.len() as int) =~= v);
            law_parse_encoded_offsets(places, v);
        } else if e.measures() && !e.inline() {
            lemma_fetch_whole(source, e.offset() as int, e.size() as int);
            if e.offset() + e.size() <= source.len() {
                assert(range_of(source, e.offset() as int, e.size()) =~= source.subrange(
                    e.offset() as int,
                    (e.offset() + e.size()) as int,
                ));
            }
        }
    }
}

/// The entries that measure image data stand in order of their tags, as all
/// entries of a proper IFD do.
pub open spec fn measures_in_order(s: Seq<Entry>) -> bool {
    forall|i: int, j: int|
        0 <= i < j < s.len() && (#[trigger] s[i]).measures() && (#[trigger] s[j]).measures()
            ==> s[i].tag <= s[j].tag
}

/// No entry that measures image data has a tag above `tag`.
spec fn measured_up_to(s: Seq<Entry>, tag: u16) -> bool {
    forall|j: int| 0 <= j < s.len() && (#[trigger] s[j]).measures() ==> s[j].tag <= tag
}

/// Insertion brings in no other entry than the new one.
proof fn lemma_insert_measured(s: Seq<Entry>, e: Entry, tag: u16)
    requires
        measured_up_to(s, tag),
        e.measures() ==> e.tag <= tag,
    ensures
        measured_up_to(insert_by_tag(s, e), tag),
    decreases s.len(),
{
    if s.len() > 0 && s.last().tag > e.tag {
        let front = s.drop_last();
        assert forall|j: int| 0 <= j < front.len() && (
        #[trigger] front[j]).measures() implies front[j].tag <= tag by {
            assert(front[j] == s[j]);
        }
        lemma_insert_measured(front, e, tag);
        assert(s.last() == s[s.len() - 1]);
    }
}

/// Sorting brings in no entries.
proof fn lemma_sort_measured(s: Seq<Entry>, tag: u16)
    requires
        measured_up_to(s, tag),
    ensures
        measured_up_to(sort_by_tag(s), tag),
    decreases s.len(),
{
    if s.len() > 0 {
        let front = s.drop_last();
        assert forall|j: int| 0 <= j < front.len() && (
        #[trigger] front[j]).measures() implies front[j].tag <= tag by {
            assert(front[j] == s[j]);
        }
        lemma_sort_measured(front, tag);
        assert(s.last() == s[s.len() - 1]);
        lemma_insert_measured(sort_by_tag(front), s.last(), tag);
    }
}

/// Sizes of image data with one more entry, put in its place.
proof fn lemma_insert_counts(store: Seq<Extent>, t: Seq<Entry>, e: Entry)
    requires
        blocks(store, t) is Ok,
        e.locates() || e.measures() ==> value_data(store, e) is Ok,
        e.measures() ==> measured_up_to(t, e.tag),
    ensures
        blocks(store, insert_by_tag(t, e)) is Ok,
        blocks(store, insert_by_tag(t, e))->Ok_0.1 == if e.measures() {
            numbers(value_data(store, e)->Ok_0, e.typ, e.count as nat)
        } else {
            blocks(store, t)->Ok_0.1
        },
    decreases t.len(),
{
    assert(t.push(e).drop_last() =~= t);
    if t.len() > 0 && t.last().tag > e.tag {
        let front = t.drop_last();
        let inner = insert_by_tag(front, e);
        if e.measures() {
            assert forall|j: int| 0 <= j < front.len() && (
            #[trigger] front[j]).measures() implies front[j].tag <= e.tag by {
                assert(front[j] == t[j]);
            }
            assert(t.last() == t[t.len() - 1]);
        }
        lemma_insert_counts(store, front, e);
        assert(inner.push(t.last()).drop_last() =~= inner);
    }
}

/// Sorting keeps the sizes of the image data, where the entries that give them
/// stand in order.
pub proof fn law_sort_keeps_counts(store: Seq<Extent>, s: Seq<Entry>)
    requires
        blocks(store, s) is Ok,
        measures_in_order(s),
    ensures
        blocks(store, sort_by_tag(s)) is Ok,
        blocks(store, sort_by_tag(s))->Ok_0.1 == blocks(store, s)->Ok_0.1,
    decreases s.len(),
{
    if s.len() > 0 {
        let front = s.drop_last();
        let e = s.last();
        assert forall|i: int, j: int|
            0 <= i < j < front.len() && (#[trigger] front[i]).measures() && (
            #[trigger] front[j]).measures() implies front[i].tag <= front[j].tag by {
            assert(front[i] == s[i] && front[j] == s[j]);
        }
        law_sort_keeps_counts(store, front);
        if e.measures() {
            assert forall|j: int| 0 <= j < front.len() && (
            #[trigger] front[j]).measures() implies front[j].tag <= e.tag by {
                assert(front[j] == s[j] && e == s[s.len() - 1]);
            }
            lemma_sort_measured(front, e.tag);
        }
        lemma_insert_counts(store, sort_by_tag(front), e);
    }
}

/// The entries of an IFD of the output are twins of those that it had.
#[verifier::spinoff_prover]
#[verifier::rlimit(30)]
proof fn lemma_made_twins(
    source: Seq<u8>,
    ifds: Seq<Ifd>,
    description: Option<Seq<char>>,
    i: int,
)
    requires
        plannable(ifds, description),
        0 <= i < ifds.len(),
    ensures
        twins(
            source,
            output(source, ifds, description),
            new_places(ifds, i),
            ifds[i].entries,
            made_entries(ifds, description, i).take(ifds[i].entries.len() as int),
        ),
{
    let file = output(source, ifds, description);
    let s = ifds[i].entries;
    let places = new_places(ifds, i);
    let made = made_entries(ifds, description, i);
    let t = made.take(s.len() as int);
    lemma_finished(source, ifds, description, i);
    assert forall|j: int| 0 <= j < s.len() implies {
        &&& renewed(s[j], #[trigger] t[j], places)
        &&& value_data(whole(file), t[j]) == Ok::<Seq<u8>, Error>(new_value(source, s[j], places))
    } by {
        assert(t[j] == made[j]);
        assert(renewed(s[j], made[j], places));
        lemma_read_stored(
            file,
            made[j],
            new_value(source, s[j], places),
            before_ifd(ifds, description, i).pos,
            new_offset(ifds, description, i) as int,
        );
    }
}

/// The image data of an IFD, read from the output: the places are the new ones,
/// the sizes the old ones.
#[verifier::spinoff_prover]
#[verifier::rlimit(30)]
pub proof fn law_output_blocks(
    source: Seq<u8>,
    ifds: Seq<Ifd>,
    description: Option<Seq<char>>,
    i: int,
)
    requires
        plannable(ifds, description),
        0 <= i < ifds.len(),
        read_from(source, ifds[i]),
        measures_in_order(ifds[i].entries),
    ensures
        blocks(whole(output(source, ifds, description)), new_entries(ifds, description, i)) == Ok::<
            (Seq<u64>, Seq<u64>),
            Error,
        >((new_places(ifds, i), ifds[i].counts)),
{
    let file = output(source, ifds, description);
    let s = ifds[i].entries;
    let n = s.len() as int;
    let places = new_places(ifds, i);
    let made = made_entries(ifds, description, i);
    let t = made.take(n);
    lemma_finished(source, ifds, description, i);
    lemma_made_twins(source, ifds, description, i);
    lemma_sort_twins(source, file, places, s, t);
    law_sort_keeps_counts(whole(source), s);
    lemma_blocks_twins(source, file, places, sort_by_tag(s), sort_by_tag(t));
    lemma_sort_has_places(s);
    lemma_places_len(ifds, description, i);
    if !has_places(s) {
        lemma_no_places(whole(source), s);
        assert(places =~= Seq::<u64>::empty());
    }
    if let Some(text) = description_at(description, i) {
        assert(made.drop_last() =~= t);
        lemma_blocks_insert(whole(file), sort_by_tag(t), made.last());
    } else {
        assert(made =~= t);
    }
}

/// Metadata with what one more entry adds to it, where that can be read.
spec fn add_text(store: Seq<Extent>, m: Map<u16, Seq<char>>, e: Entry) -> Map<u16, Seq<char>> {
    let text = trim_nul(lossy_text(value_data(store, e)->Ok_0));
    if name_of(e.tag) is Some && e.typ == ASCII && text.len() > 0 {
        m.insert(e.tag, text)
    } else {
        m
    }
}

/// Whether an entry adds to the metadata and can be read, or adds nothing.
spec fn text_readable(store: Seq<Extent>, e: Entry) -> bool {
    name_of(e.tag) is Some && e.typ == ASCII ==> value_data(store, e) is Ok
}

/// Metadata with one more entry at the end.
proof fn lemma_push_metadata(store: Seq<Extent>, t: Seq<Entry>, e: Entry)
    ensures
        metadata_of(store, t.push(e)) is Ok <==> metadata_of(store, t) is Ok && text_readable(
            store,
            e,
        ),
        metadata_of(store, t.push(e)) is Ok ==> metadata_of(store, t.push(e))->Ok_0 == add_text(
            store,
            metadata_of(store, t)->Ok_0,
            e,
        ),
{
    assert(t.push(e).drop_last() =~= t);
    assert(t.push(e).last() == e);
}

/// Metadata with one more entry, put in its place.
proof fn lemma_insert_metadata(store: Seq<Extent>, t: Seq<Entry>, e: Entry)
    requires
        metadata_of(store, t) is Ok,
        text_readable(store, e),
    ensures
        metadata_of(store, insert_by_tag(t, e)) == Ok::<Map<u16, Seq<char>>, Error>(
            add_text(store, metadata_of(store, t)->Ok_0, e),
        ),
    decreases t.len(),
{
    lemma_push_metadata(store, t, e);
    if t.len() > 0 && t.last().tag > e.tag {
        let front = t.drop_last();
        let x = t.last();
        let m = metadata_of(store, front)->Ok_0;
        assert(front.push(x) =~= t);
        lemma_push_metadata(store, front, x);
        lemma_insert_metadata(store, front, e);
        lemma_push_metadata(store, insert_by_tag(front, e), x);
        assert(add_text(store, add_text(store, m, e), x) =~= add_text(
            store,
            add_text(store, m, x),
            e,
        ));
    }
}

/// Sorting the entries of an IFD does not change its metadata.
pub proof fn law_sort_keeps_metadata(store: Seq<Extent>, s: Seq<Entry>)
    requires
        metadata_of(store, s) is Ok,
    ensures
        metadata_of(store, sort_by_tag(s)) == metadata_of(store, s),
    decreases s.len(),
{
    if s.len() > 0 {
        let front = s.drop_last();
        let sorted = sort_by_tag(front);
        law_sort_keeps_metadata(store, front);
        assert(front.push(s.last()) =~= s);
        lemma_push_metadata(store, front, s.last());
        lemma_insert_metadata(store, sorted, s.last());
    }
}

/// Twins hold the same metadata.
proof fn lemma_metadata_twins(
    source: Seq<u8>,
    file: Seq<u8>,
    places: Seq<u64>,
    s: Seq<Entry>,
    t: Seq<Entry>,
)
    requires
        twins(source, file, places, s, t),
        metadata_of(whole(source), s) is Ok,
    ensures
        metadata_of(whole(file), t) == metadata_of(whole(source), s),
    decreases s.len(),
{
    if s.len() > 0 {
        let e = s.last();
        lemma_twins_front(source, file, places, s, t);
        lemma_metadata_twins(source, file, places, s.drop_last(), t.drop_last());
        if name_of(e.tag) is Some && e.typ == ASCII && !e.inline() {
            lemma_fetch_whole(source, e.offset() as int, e.size() as int);
            assert(range_of(source, e.offset() as int, e.size()) =~= source.subrange(
                e.offset() as int,
                (e.offset() + e.size()) as int,
            ));
        }
    }
}

/// The metadata of an IFD is the same in the output, where no description is
/// added.
#[verifier::spinoff_prover]
#[verifier::rlimit(30)]
pub proof fn law_output_metadata(source: Seq<u8>, ifds: Seq<Ifd>, i: int)
    requires
        plannable(ifds, None),
        0 <= i < ifds.len(),
        metadata_of(whole(source), ifds[i].entries) is Ok,
    ensures
        metadata_of(whole(output(source, ifds, None)), new_entries(ifds, None, i)) == metadata_of(
            whole(source),
            ifds[i].entries,
        ),
{
    let file = output(source, ifds, None);
    let s = ifds[i].entries;
    let places = new_places(ifds, i);
    let made = made_entries(ifds, None, i);
    lemma_finished(source, ifds, None, i);
    lemma_made_twins(source, ifds, None, i);
    assert(made.take(s.len() as int) =~= made);
    lemma_sort_twins(source, file, places, s, made);
    law_sort_keeps_metadata(whole(source), s);
    lemma_metadata_twins(source, file, places, sort_by_tag(s), sort_by_tag(made));
}

/// All image data that a reader finds in the file ends before its first IFD.
pub open spec fn images_in_front(
    file: Seq<u8>,
    ifds: Seq<Ifd>,
    description: Option<Seq<char>>,
) -> bool {
    forall|i: int|
        0 <= i < ifds.len() ==> match blocks(
            whole(file),
            #[trigger] new_entries(ifds, description, i),
        ) {
            Ok((offsets, counts)) => forall|j: int|
                0 <= j < offsets.len() && j < counts.len() ==> #[trigger] offsets[j] + counts[j]
                    <= new_offset(ifds, description, 0),
            Err(_) => false,
        }
}

/// Nothing was out of place so far, all IFDs seen stand at `bound` or behind it
/// and all image data seen stands before it.
spec fn undisturbed(t: Tally, bound: u64) -> bool {
    &&& t.crossings == 0
    &&& t.max_image_end <= bound
    &&& forall|p: u64| #[trigger] t.positions.contains(p) ==> p >= bound
}

/// Blocks that end before all IFDs disturb nothing.
proof fn lemma_scan_undisturbed(
    t: Tally,
    offsets: Seq<u64>,
    counts: Seq<u64>,
    allowed: u32,
    n: nat,
    bound: u64,
)
    requires
        undisturbed(t, bound),
        n <= block_count(offsets, counts),
        forall|j: int|
            0 <= j < block_count(offsets, counts) ==> #[trigger] offsets[j] + counts[j] <= bound,
    ensures
        scan_blocks(t, offsets, counts, allowed, n) matches Scan::Going(u) && undisturbed(u, bound),
    decreases n,
{
    if n > 0 {
        lemma_scan_undisturbed(t, offsets, counts, allowed, (n - 1) as nat, bound);
        match scan_blocks(t, offsets, counts, allowed, (n - 1) as nat) {
            Scan::Going(u) => {
                let end = (offsets[n - 1] + counts[n - 1]) as u64;
                assert(offsets[n - 1] + counts[n - 1] <= bound);
                assert(u.positions.filter(|p: u64| p < end) =~= Set::<u64>::empty());
            },
            _ => {},
        }
    }
}

/// The rest of the check, from the IFD at index `k` on.
#[verifier::spinoff_prover]
#[verifier::rlimit(30)]
proof fn lemma_check_rest(
    source: Seq<u8>,
    ifds: Seq<Ifd>,
    description: Option<Seq<char>>,
    s: CheckState,
    k: int,
)
    requires
        plannable(ifds, description),
        images_in_front(output(source, ifds, description), ifds, description),
        0 <= k <= ifds.len(),
        s.next == Some(
            if k < ifds.len() {
                new_offset(ifds, description, k)
            } else {
                0u64
            },
        ),
        undisturbed(s.tally, new_offset(ifds, description, 0)),
    ensures
        check_run(
            s,
            whole(output(source, ifds, description)),
            (ifds.len() - k + 1) as nat,
        ) == Ok::<Progress, Error>(Progress::Verdict(true)),
    decreases ifds.len() - k,
{
    let store = whole(output(source, ifds, description));
    let bound = new_offset(ifds, description, 0);
    if k < ifds.len() {
        let offset = new_offset(ifds, description, k);
        let entries = new_entries(ifds, description, k);
        law_output_places(ifds, description, 0, k);
        law_output_places(ifds, description, k, k);
        law_output_ifd(source, ifds, description, k);
        let t = meet_ifd(s.tally, offset);
        assert(undisturbed(t, bound));
        match blocks(store, entries) {
            Ok((offsets, counts)) => {
                let n = block_count(offsets, counts);
                lemma_scan_undisturbed(t, offsets, counts, s.allowed, n, bound);
                match scan_blocks(t, offsets, counts, s.allowed, n) {
                    Scan::Going(u) => {
                        let next = CheckState {
                            next: Some(new_link(ifds, description, k)),
                            tally: u,
                            ..s
                        };
                        lemma_check_rest(source, ifds, description, next, k + 1);
                    },
                    _ => {},
                }
            },
            Err(_) => {},
        }
    } else {
        reveal_with_fuel(check_run, 2);
    }
}

/// The check finds a file consolidated, whatever number of crossings is allowed,
/// where the plan made it and all image data that a reader finds in it ends
/// before its first IFD.
pub proof fn law_images_in_front_pass(
    source: Seq<u8>,
    ifds: Seq<Ifd>,
    description: Option<Seq<char>>,
    allowed: u32,
)
    requires
        plannable(ifds, description),
        images_in_front(output(source, ifds, description), ifds, description),
    ensures
        check_run(
            check_start(allowed),
            whole(output(source, ifds, description)),
            ifds.len() + 2,
        ) == Ok::<Progress, Error>(Progress::Verdict(true)),
{
    law_output_header(source, ifds, description);
    let s = CheckState {
        next: Some(new_offset(ifds, description, 0)),
        ..check_start(allowed)
    };
    lemma_check_rest(source, ifds, description, s, 0);
}

/// The output is consolidated: the check says so, whatever number of crossings
/// is allowed.
#[verifier::spinoff_prover]
#[verifier::rlimit(30)]
pub proof fn law_output_is_consolidated(
    source: Seq<u8>,
    ifds: Seq<Ifd>,
    description: Option<Seq<char>>,
    allowed: u32,
)
    requires
        plannable(ifds, description),
        forall|i: int|
            0 <= i < ifds.len() ==> read_from(source, #[trigger] ifds[i]) && measures_in_order(
                ifds[i].entries,
            ),
    ensures
        check_run(
            check_start(allowed),
            whole(output(source, ifds, description)),
            ifds.len() + 2,
        ) == Ok::<Progress, Error>(Progress::Verdict(true)),
{
    let file = output(source, ifds, description);
    assert forall|i: int| 0 <= i < ifds.len() implies match blocks(
        whole(file),
        #[trigger] new_entries(ifds, description, i),
    ) {
        Ok((offsets, counts)) => forall|j: int|
            0 <= j < offsets.len() && j < counts.len() ==> #[trigger] offsets[j] + counts[j]
                <= new_offset(ifds, description, 0),
        Err(_) => false,
    } by {
        assert(read_from(source, ifds[i]));
        law_output_blocks(source, ifds, description, i);
        lemma_places_len(ifds, description, i);
        let places = new_places(ifds, i);
        let counts = ifds[i].counts;
        assert forall|j: int|
            0 <= j < places.len() && j < counts.len() implies #[trigger] places[j] + counts[j]
            <= new_offset(ifds, description, 0) by {
            law_output_order(ifds, description, i, j, 0);
        }
    }
    law_images_in_front_pass(source, ifds, description, allowed);
}

} // verus!
