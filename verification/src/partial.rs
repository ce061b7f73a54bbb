//! Working with parts of a file: what is decided from the byte ranges at hand is
//! what all of the file would have led to.
use vstd::prelude::*;

use crate::bytes::le_value;
use crate::consolidated::{check_step, CheckState};
use crate::entry::Entry;
use crate::error::Error;
use crate::metadata::metadata_of;
use crate::reader::{blocks, covers, fetch, first_ifd, ifd_at, lemma_fetch_whole, value_data, whole,
    Extent};
use crate::source::{survey_step, SurveyState};

verus! {

/// Every byte range at hand is a part of the file.
pub open spec fn part_of(store: Seq<Extent>, file: Seq<u8>) -> bool {
    forall|k: int|
        0 <= k < store.len() ==> {
            &&& (#[trigger] store[k]).start + store[k].bytes.len() <= file.len()
            &&& store[k].bytes == file.subrange(
                store[k].start as int,
                store[k].start + store[k].bytes.len(),
            )
        }
}

/// The outcome is not a request for more bytes.
pub open spec fn settled<T>(r: Result<T, Error>) -> bool {
    match r {
        Err(Error::NeedBytes { .. }) => false,
        _ => true,
    }
}

/// Bytes at hand are those of the file.
proof fn lemma_fetch_part(store: Seq<Extent>, file: Seq<u8>, offset: int, len: int)
    requires
        part_of(store, file),
        0 <= offset,
        0 <= len,
    ensures
        fetch(store, offset, len) matches Some(b) ==> fetch(whole(file), offset, len) == Some(b),
    decreases store.len(),
{
    lemma_fetch_whole(file, offset, len);
    if store.len() > 0 {
        let e = store[0];
        if covers(e, offset, len) {
            assert(e.bytes.subrange(offset - e.start, offset - e.start + len) =~= file.subrange(
                offset,
                offset + len,
            ));
        } else {
            let rest = store.drop_first();
            assert forall|k: int| 0 <= k < rest.len() implies {
                &&& (#[trigger] rest[k]).start + rest[k].bytes.len() <= file.len()
                &&& rest[k].bytes == file.subrange(
                    rest[k].start as int,
                    rest[k].start + rest[k].bytes.len(),
                )
            } by {
                assert(rest[k] == store[k + 1]);
            }
            lemma_fetch_part(rest, file, offset, len);
        }
    }
}

/// The place of the first IFD, found from a part of the file, is that in the file.
pub proof fn law_first_ifd_part(store: Seq<Extent>, file: Seq<u8>)
    requires
        part_of(store, file),
        settled(first_ifd(store)),
    ensures
        first_ifd(store) == first_ifd(whole(file)),
{
    lemma_fetch_part(store, file, 8, 8);
}

/// An IFD read from a part of the file is that of the file.
pub proof fn law_ifd_part(store: Seq<Extent>, file: Seq<u8>, offset: u64)
    requires
        part_of(store, file),
        settled(ifd_at(store, offset)),
    ensures
        ifd_at(store, offset) == ifd_at(whole(file), offset),
{
    lemma_fetch_part(store, file, offset as int, 8);
    if let Some(b) = fetch(store, offset as int, 8) {
        let n = le_value(b);
        lemma_fetch_part(store, file, offset + 8, (20 * n + 8) as int);
    }
}

/// A value read from a part of the file is that in the file.
pub proof fn law_value_part(store: Seq<Extent>, file: Seq<u8>, e: Entry)
    requires
        part_of(store, file),
        settled(value_data(store, e)),
    ensures
        value_data(store, e) == value_data(whole(file), e),
{
    lemma_fetch_part(store, file, e.offset() as int, e.size() as int);
}

/// Image data located from a part of the file is where the file says.
pub proof fn law_blocks_part(store: Seq<Extent>, file: Seq<u8>, entries: Seq<Entry>)
    requires
        part_of(store, file),
        settled(blocks(store, entries)),
    ensures
        blocks(store, entries) == blocks(whole(file), entries),
    decreases entries.len(),
{
    if entries.len() > 0 {
        let e = entries.last();
        law_blocks_part(store, file, entries.drop_last());
        if blocks(store, entries.drop_last()) is Ok && (e.locates() || e.measures()) {
            law_value_part(store, file, e);
        }
    }
}

/// Metadata collected from a part of the file is that of the file.
pub proof fn law_metadata_part(store: Seq<Extent>, file: Seq<u8>, entries: Seq<Entry>)
    requires
        part_of(store, file),
        settled(metadata_of(store, entries)),
    ensures
        metadata_of(store, entries) == metadata_of(whole(file), entries),
    decreases entries.len(),
{
    if entries.len() > 0 {
        let e = entries.last();
        law_metadata_part(store, file, entries.drop_last());
        if metadata_of(store, entries.drop_last()) is Ok && settled(value_data(store, e)) {
            law_value_part(store, file, e);
        }
    }
}

/// A step of the check that needs no more bytes goes as it would with all of the
/// file.
pub proof fn law_check_part(store: Seq<Extent>, file: Seq<u8>, s: CheckState)
    requires
        part_of(store, file),
        settled(check_step(s, store)),
    ensures
        check_step(s, store) == check_step(s, whole(file)),
{
    match s.next {
        None => {
            law_first_ifd_part(store, file);
        },
        Some(offset) => {
            if settled(ifd_at(store, offset)) {
                law_ifd_part(store, file, offset);
                if let Ok((entries, next)) = ifd_at(store, offset) {
                    if settled(blocks(store, entries)) {
                        law_blocks_part(store, file, entries);
                    }
                }
            }
        },
    }
}

/// A step of the survey that needs no more bytes goes as it would with all of
/// the file.
pub proof fn law_survey_part(store: Seq<Extent>, file: Seq<u8>, s: SurveyState)
    requires
        part_of(store, file),
        settled(survey_step(s, store)),
    ensures
        survey_step(s, store) == survey_step(s, whole(file)),
{
    match s.next {
        None => {
            law_first_ifd_part(store, file);
        },
        Some(offset) => {
            if settled(ifd_at(store, offset)) {
                law_ifd_part(store, file, offset);
                if let Ok((entries, next)) = ifd_at(store, offset) {
                    if settled(blocks(store, entries)) {
                        law_blocks_part(store, file, entries);
                    }
                    if settled(metadata_of(store, entries)) {
                        law_metadata_part(store, file, entries);
                    }
                }
            }
        },
    }
}

/// Bytes that were supplied are at hand from then on, and so is what was at hand
/// before.
pub proof fn law_supplied(store: Seq<Extent>, given: Extent, offset: int, len: int)
    requires
        covers(given, offset, len) || fetch(store, offset, len) is Some,
    ensures
        fetch(store.push(given), offset, len) is Some,
        fetch(store, offset, len) is Some ==> fetch(store.push(given), offset, len) == fetch(
            store,
            offset,
            len,
        ),
    decreases store.len(),
{
    let more = store.push(given);
    if store.len() == 0 {
        assert(more[0] == given);
    } else if !covers(store[0], offset, len) {
        law_supplied(store.drop_first(), given, offset, len);
        assert(more.drop_first() =~= store.drop_first().push(given));
    }
}

/// With all of a file at hand, only what lies beyond its end is asked for.
pub proof fn law_whole_file_requests(file: Seq<u8>, offset: int, len: int)
    requires
        0 <= offset,
    ensures
        fetch(whole(file), offset, len) is None <==> offset + len > file.len(),
{
    lemma_fetch_whole(file, offset, len);
}

} // verus!
