//! What the mathematical contents of values stand for: each field as it is, each
//! member in its place.
use vstd::prelude::*;

use crate::arguments::{texts, Command, Order, UsageError};
use crate::entry::{entry_views, IfdEntry};
use crate::outputs::{Outputs, Target, TargetNames};
use crate::process::place_views;
use crate::reader::BigTiffReader;
use crate::source::{ifd_views, SourceIfd, Survey};
use crate::writer::{pieces, Action, Piece};

verus! {

/// Commands.
pub proof fn law_command(c: Command)
    ensures
        c is Help <==> c@ is Help,
        c is Run <==> c@ is Run,
        c matches Command::Run { mode, allowed_crossings, input } ==> c@ == (Order::Run {
            mode,
            allowed_crossings,
            input: input@,
        }),
        c matches Command::Invalid(e) ==> {
            &&& e is MissingNumber <==> c@ is MissingNumber
            &&& e is BadNumber <==> c@ is BadNumber
            &&& e is MultipleInputs <==> c@ is MultipleInputs
            &&& e is NoInput <==> c@ is NoInput
            &&& e matches UsageError::UnknownOption(s) ==> c@ == Order::UnknownOption(s@)
        },
{
}

/// Arguments.
pub proof fn law_texts(args: Seq<String>, i: int)
    ensures
        texts(args).len() == args.len(),
        0 <= i < args.len() ==> texts(args)[i] == args[i]@,
{
}

/// Names of files.
pub proof fn law_output_views(o: Outputs)
    ensures
        o.target matches Target::Replace { backup, temporary } ==> o@.target == (
        TargetNames::Replace { backup: backup@, temporary: temporary@ }),
        o.target matches Target::Create { output } ==> o@.target == (TargetNames::Create {
            output: output@,
        }),
        o.metadata matches Some(name) ==> o@.metadata == Some(name@),
        o.metadata is None ==> o@.metadata is None,
{
}

/// Entries.
pub proof fn law_entry_views(entries: Seq<IfdEntry>, i: int)
    ensures
        entry_views(entries).len() == entries.len(),
        0 <= i < entries.len() ==> {
            let e = entries[i];
            let v = entry_views(entries)[i];
            &&& v.tag == e.tag
            &&& v.typ == e.typ
            &&& v.count == e.count
            &&& v.value == e.value_or_offset@
            &&& v == e@
        },
{
}

/// IFDs of the input.
pub proof fn law_ifd_views(ifds: Seq<SourceIfd>, i: int)
    ensures
        ifd_views(ifds).len() == ifds.len(),
        0 <= i < ifds.len() ==> {
            let v = ifd_views(ifds)[i];
            &&& v.entries == entry_views(ifds[i].entries@)
            &&& v.offsets == ifds[i].offsets@
            &&& v.counts == ifds[i].counts@
        },
{
}

/// Surveys.
pub proof fn law_survey_view(s: Survey, i: int)
    ensures
        s@.mode == s.mode,
        s@.next == s.next_ifd,
        s@.ifds == ifd_views(s.ifds@),
        s@.dims == s.image_dims,
        s@.metadata.len() == s.metadata@.len(),
        0 <= i < s.metadata@.len() ==> s@.metadata[i] == s.metadata@[i]@,
{
}

/// Readers.
pub proof fn law_reader_view(r: BigTiffReader, i: int)
    ensures
        r@.len() == r.chunks@.len(),
        0 <= i < r.chunks@.len() ==> r@[i].start == r.chunks@[i].offset && r@[i].bytes
            == r.chunks@[i].data@,
{
}

/// Places.
pub proof fn law_place_views(all: Seq<Vec<u64>>, i: int)
    ensures
        place_views(all).len() == all.len(),
        0 <= i < all.len() ==> place_views(all)[i] == all[i]@,
{
}

/// Actions.
pub proof fn law_pieces(actions: Seq<Action>, i: int)
    ensures
        pieces(actions).len() == actions.len(),
        0 <= i < actions.len() ==> match actions[i] {
            Action::Append(b) => pieces(actions)[i] == Piece::Append(b@),
            Action::Copy { offset, len } => pieces(actions)[i] == (Piece::Copy { offset, len }),
            Action::Patch { position, value } => pieces(actions)[i] == (Piece::Patch {
                position,
                value,
            }),
        },
{
}

} // verus!
