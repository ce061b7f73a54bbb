//! What a survey brings back: one record for each IFD of the chain, in the order of
//! the chain.
use vstd::prelude::*;

use crate::entry::Entry;
use crate::error::Error;
use crate::metadata::metadata_of;
use crate::ome::{dimensions, law_ome_xml, shows};
use crate::reader::{blocks, first_ifd, ifd_at, Extent};
use crate::source::{add_ifd, description_of, found_dims, kept_entries, stripped, survey_run,
    survey_start, survey_step, Mode, SurveyState};

verus! {

/// The entries of the IFDs in the chain from `offset` on. There is nothing where
/// the chain has more than `n` IFDs or one of them cannot be read.
pub open spec fn pages(store: Seq<Extent>, offset: u64, n: nat) -> Option<Seq<Seq<Entry>>>
    decreases n,
{
    if offset == 0 {
        Some(Seq::empty())
    } else if n == 0 {
        None
    } else {
        match ifd_at(store, offset) {
            Err(_) => None,
            Ok((entries, next)) => match pages(store, next, (n - 1) as nat) {
                None => None,
                Some(rest) => Some(seq![entries] + rest),
            },
        }
    }
}

/// Whether a tag is about the structure of the image: its size and sample format,
/// its compression, its strips and tiles, its resolution.
pub open spec fn is_structural(tag: u16) -> bool {
    tag == 256 || tag == 257 || tag == 258 || tag == 259 || tag == 262 || tag == 273 || tag == 277
        || tag == 278 || tag == 279 || tag == 282 || tag == 283 || tag == 284 || tag == 296 || tag
        == 322 || tag == 323 || tag == 324 || tag == 325 || tag == 339
}

/// A survey knows everything about the IFDs whose entries are `found`.
pub open spec fn knows(store: Seq<Extent>, s: SurveyState, found: Seq<Seq<Entry>>) -> bool {
    &&& s.ifds.len() == found.len()
    &&& forall|i: int|
        0 <= i < found.len() ==> {
            &&& blocks(store, #[trigger] found[i]) == Ok::<(Seq<u64>, Seq<u64>), Error>(
                (s.ifds[i].offsets, s.ifds[i].counts),
            )
            &&& s.ifds[i].entries == if s.mode == Mode::Consolidate {
                found[i]
            } else {
                found[i].filter(|e: Entry| is_structural(e.tag))
            }
        }
    &&& s.mode == Mode::Consolidate ==> s.metadata.len() == 0
    &&& s.mode != Mode::Consolidate ==> s.metadata.len() == found.len() && forall|i: int|
        0 <= i < found.len() ==> metadata_of(store, #[trigger] found[i]) == Ok::<
            Map<u16, Seq<char>>,
            Error,
        >(s.metadata[i])
    &&& found.len() == 0 ==> s.dims is None
    &&& found.len() > 0 ==> s.dims == Some(dimensions(found[0]))
}

/// Stripping keeps the entries about the structure of the image.
pub proof fn law_stripped(entries: Seq<Entry>)
    ensures
        stripped(entries) == entries.filter(|e: Entry| is_structural(e.tag)),
    decreases entries.len(),
{
    reveal(Seq::filter);
    if entries.len() > 0 {
        law_stripped(entries.drop_last());
    }
}

/// One step adds what is known about one IFD.
proof fn lemma_add(
    store: Seq<Extent>,
    s: SurveyState,
    found: Seq<Seq<Entry>>,
    entries: Seq<Entry>,
    next: u64,
    offsets: Seq<u64>,
    counts: Seq<u64>,
    metadata: Map<u16, Seq<char>>,
)
    requires
        knows(store, s, found),
        blocks(store, entries) == Ok::<(Seq<u64>, Seq<u64>), Error>((offsets, counts)),
        s.mode != Mode::Consolidate ==> metadata_of(store, entries) == Ok::<
            Map<u16, Seq<char>>,
            Error,
        >(metadata),
    ensures
        knows(
            store,
            add_ifd(s, entries, next, offsets, counts, metadata),
            found.push(entries),
        ),
{
    let t = add_ifd(s, entries, next, offsets, counts, metadata);
    let more = found.push(entries);
    law_stripped(entries);
    assert forall|i: int| 0 <= i < more.len() implies {
        &&& blocks(store, #[trigger] more[i]) == Ok::<(Seq<u64>, Seq<u64>), Error>(
            (t.ifds[i].offsets, t.ifds[i].counts),
        )
        &&& t.ifds[i].entries == if t.mode == Mode::Consolidate {
            more[i]
        } else {
            more[i].filter(|e: Entry| is_structural(e.tag))
        }
    } by {
        if i < found.len() {
            assert(more[i] == found[i]);
            assert(t.ifds[i] == s.ifds[i]);
        }
    }
    if s.mode != Mode::Consolidate {
        assert forall|i: int| 0 <= i < more.len() implies metadata_of(store, #[trigger] more[i])
            == Ok::<Map<u16, Seq<char>>, Error>(t.metadata[i]) by {
            if i < found.len() {
                assert(more[i] == found[i]);
                assert(t.metadata[i] == s.metadata[i]);
            }
        }
    }
    if found.len() > 0 {
        assert(more[0] == found[0]);
    }
}

/// A survey that reaches the end of the chain has been to all of its IFDs.
proof fn lemma_survey_collects(
    store: Seq<Extent>,
    s: SurveyState,
    offset: u64,
    n: nat,
    found: Seq<Seq<Entry>>,
)
    requires
        s.next == Some(offset),
        knows(store, s, found),
        survey_run(s, store, n) is Ok,
        survey_run(s, store, n)->Ok_0.next == Some(0u64),
    ensures
        ({
            let t = survey_run(s, store, n)->Ok_0;
            &&& t.mode == s.mode
            &&& pages(store, offset, n) is Some
            &&& knows(store, t, found + pages(store, offset, n)->0)
        }),
    decreases n,
{
    if offset == 0 {
        assert(found + Seq::<Seq<Entry>>::empty() =~= found);
    } else {
        let (entries, next) = ifd_at(store, offset)->Ok_0;
        let (offsets, counts) = blocks(store, entries)->Ok_0;
        let metadata = if s.mode == Mode::Consolidate {
            Map::empty()
        } else {
            metadata_of(store, entries)->Ok_0
        };
        let t = add_ifd(s, entries, next, offsets, counts, metadata);
        let more = found.push(entries);
        lemma_add(store, s, found, entries, next, offsets, counts, metadata);
        lemma_survey_collects(store, t, next, (n - 1) as nat, more);
        let rest = pages(store, next, (n - 1) as nat)->0;
        assert(more + rest =~= found + (seq![entries] + rest));
    }
}

/// A survey that has reached the end of the chain has a record for each IFD of it,
/// in order: the entries to keep, the places and the sizes of the image data, and,
/// where metadata is stripped, the metadata; and the dimensions of the first one.
pub proof fn law_survey_is_complete(store: Seq<Extent>, mode: Mode, n: nat, t: SurveyState)
    requires
        survey_run(survey_start(mode), store, n) == Ok::<SurveyState, Error>(t),
        t.next == Some(0u64),
    ensures
        t.mode == mode,
        first_ifd(store) is Ok,
        pages(store, first_ifd(store)->Ok_0, n) is Some,
        knows(store, t, pages(store, first_ifd(store)->Ok_0, n)->0),
{
    let s = survey_start(mode);
    let none = Seq::<Seq<Entry>>::empty();
    let first = first_ifd(store)->Ok_0;
    let u = SurveyState { next: Some(first), ..s };
    let m = (n - 1) as nat;
    assert(knows(store, u, none));
    assert(survey_run(u, store, m) == Ok::<SurveyState, Error>(t));
    lemma_survey_collects(store, u, first, m, none);
    lemma_pages_more(store, first, m, n);
    let found = pages(store, first, m)->0;
    assert(none + found =~= found);
}

/// With room for more IFDs the chain is the same.
proof fn lemma_pages_more(store: Seq<Extent>, offset: u64, m: nat, n: nat)
    requires
        m <= n,
        pages(store, offset, m) is Some,
    ensures
        pages(store, offset, n) == pages(store, offset, m),
    decreases m,
{
    if offset != 0 {
        if let Ok((entries, next)) = ifd_at(store, offset) {
            lemma_pages_more(store, next, (m - 1) as nat, (n - 1) as nat);
        }
    }
}

/// A step goes through if and only if the IFD can be read, its image data located
/// and, where it is stripped, its metadata collected.
proof fn lemma_survey_goes_on(
    store: Seq<Extent>,
    s: SurveyState,
    offset: u64,
    n: nat,
)
    requires
        s.next == Some(offset),
        pages(store, offset, n) is Some,
        forall|i: int|
            0 <= i < pages(store, offset, n)->0.len() ==> blocks(
                store,
                #[trigger] pages(store, offset, n)->0[i],
            ) is Ok && (s.mode == Mode::Consolidate || metadata_of(
                store,
                pages(store, offset, n)->0[i],
            ) is Ok),
    ensures
        survey_run(s, store, pages(store, offset, n)->0.len()) matches Ok(t) && t.next == Some(
            0u64,
        ),
    decreases n,
{
    if offset != 0 {
        let all = pages(store, offset, n)->0;
        let (entries, next) = ifd_at(store, offset)->Ok_0;
        let rest = pages(store, next, (n - 1) as nat)->0;
        assert(all[0] == entries);
        assert forall|i: int| 0 <= i < rest.len() implies blocks(store, #[trigger] rest[i]) is Ok
            && (s.mode == Mode::Consolidate || metadata_of(store, rest[i]) is Ok) by {
            assert(all[i + 1] == rest[i]);
        }
        let (offsets, counts) = blocks(store, entries)->Ok_0;
        let metadata = if s.mode == Mode::Consolidate {
            Map::empty()
        } else {
            metadata_of(store, entries)->Ok_0
        };
        let t = add_ifd(s, entries, next, offsets, counts, metadata);
        lemma_survey_goes_on(store, t, next, (n - 1) as nat);
    }
}

/// A survey reaches the end of every chain whose IFDs can be read, whose image data
/// can be located and, where it is stripped, whose metadata can be collected.
pub proof fn law_survey_succeeds(store: Seq<Extent>, mode: Mode, first: u64, n: nat)
    requires
        first_ifd(store) == Ok::<u64, Error>(first),
        pages(store, first, n) is Some,
        forall|i: int|
            0 <= i < pages(store, first, n)->0.len() ==> blocks(
                store,
                #[trigger] pages(store, first, n)->0[i],
            ) is Ok && (mode == Mode::Consolidate || metadata_of(
                store,
                pages(store, first, n)->0[i],
            ) is Ok),
    ensures
        survey_run(
            survey_start(mode),
            store,
            pages(store, first, n)->0.len() + 1,
        ) matches Ok(t) && t.next == Some(0u64),
{
    let u = SurveyState { next: Some(first), ..survey_start(mode) };
    lemma_survey_goes_on(store, u, first, n);
}

/// The description of an OME-TIFF file shows the width, the height and the bits per
/// sample that the first IFD of the chain gives, and the number of IFDs in the
/// chain. In the other modes there is none.
pub proof fn law_description(store: Seq<Extent>, mode: Mode, n: nat, t: SurveyState)
    requires
        survey_run(survey_start(mode), store, n) == Ok::<SurveyState, Error>(t),
        t.next == Some(0u64),
        n <= u64::MAX,
    ensures
        mode != Mode::Ome ==> description_of(t) is None,
        mode == Mode::Ome ==> description_of(t) is Some,
        ({
            let found = pages(store, first_ifd(store)->Ok_0, n)->0;
            mode == Mode::Ome && found.len() > 0 ==> shows(
                description_of(t)->0,
                dimensions(found[0]).0 as nat,
                dimensions(found[0]).1 as nat,
                found.len(),
                dimensions(found[0]).2,
            )
        }),
        ({
            let found = pages(store, first_ifd(store)->Ok_0, n)->0;
            &&& mode == Mode::Ome && found.len() == 0 ==> shows(description_of(t)->0, 0, 0, 0, 16)
            &&& found_dims(t) == if found.len() > 0 {
                dimensions(found[0])
            } else {
                (0u32, 0u32, 16u16)
            }
        }),
{
    law_survey_is_complete(store, mode, n, t);
    let found = pages(store, first_ifd(store)->Ok_0, n)->0;
    lemma_pages_len(store, first_ifd(store)->Ok_0, n);
    if found.len() > 0 {
        let (width, height, bits) = dimensions(found[0]);
        law_ome_xml(width, height, found.len() as u64, bits);
    } else {
        law_ome_xml(0, 0, 0, 16);
    }
}

/// A chain has no more IFDs than there is room for.
proof fn lemma_pages_len(store: Seq<Extent>, offset: u64, n: nat)
    requires
        pages(store, offset, n) is Some,
    ensures
        pages(store, offset, n)->0.len() <= n,
    decreases n,
{
    if offset != 0 {
        if let Ok((entries, next)) = ifd_at(store, offset) {
            lemma_pages_len(store, next, (n - 1) as nat);
        }
    }
}

/// What keeps a survey from going on is reported as it is: an IFD that cannot be
/// read, then image data that cannot be located, then metadata that cannot be
/// collected, which matters only where it is stripped.
pub proof fn law_survey_errors(store: Seq<Extent>, s: SurveyState, offset: u64, e: Error)
    requires
        s.next == Some(offset),
        offset != 0,
    ensures
        ifd_at(store, offset) == Err::<(Seq<Entry>, u64), Error>(e) ==> survey_step(s, store)
            == Err::<Option<SurveyState>, Error>(e),
        ifd_at(store, offset) matches Ok((entries, next)) ==> {
            &&& blocks(store, entries) == Err::<(Seq<u64>, Seq<u64>), Error>(e) ==> survey_step(
                s,
                store,
            ) == Err::<Option<SurveyState>, Error>(e)
            &&& blocks(store, entries) is Ok && s.mode != Mode::Consolidate && metadata_of(
                store,
                entries,
            ) == Err::<Map<u16, Seq<char>>, Error>(e) ==> survey_step(s, store) == Err::<
                Option<SurveyState>,
                Error,
            >(e)
            &&& blocks(store, entries) is Ok && s.mode == Mode::Consolidate ==> survey_step(
                s,
                store,
            ) is Ok
        },
{
}

/// Consolidating keeps every entry as it is; the other modes keep those about the
/// structure of the image.
pub proof fn law_kept(entries: Seq<Entry>, mode: Mode)
    ensures
        mode == Mode::Consolidate ==> kept_entries(entries, mode) == entries,
        mode != Mode::Consolidate ==> kept_entries(entries, mode) == entries.filter(
            |e: Entry| is_structural(e.tag),
        ),
{
    law_stripped(entries);
}

} // verus!
