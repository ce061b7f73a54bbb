//! From one file to the other: a survey of the input, the plan made of it, and a
//! reader of the output.
use vstd::prelude::*;

use crate::consolidated::{check_run, check_start, Progress};
use crate::entry::{well_formed, Entry};
use crate::error::Error;
use crate::layout::describes;
use crate::metadata::metadata_of;
use crate::process::{all_fit, plan};
use crate::readback::{law_output_description, law_output_entries, law_output_entry,
    law_output_header, law_output_ifd, law_output_places, made_entries, new_entries, new_link,
    new_offset, new_places, output, plannable};
use crate::reader::whole;
use crate::recheck::{law_output_blocks, law_output_is_consolidated, law_output_metadata,
    measures_in_order};
use crate::source::{add_ifd, description_of, is_kept, law_survey, read_from, survey_run,
    survey_start, taken_from, Ifd, Mode, SurveyState};

verus! {

/// `s` is what a survey of `source` has found in `n` steps, and there is a plan
/// for it.
pub open spec fn surveyed(source: Seq<u8>, mode: Mode, n: nat, s: SurveyState) -> bool {
    &&& survey_run(survey_start(mode), whole(source), n) == Ok::<SurveyState, Error>(s)
    &&& s.ifds.len() > 0
    &&& all_fit(s.ifds)
    &&& plan(s.ifds, description_of(s)).pos <= u64::MAX
}

/// The file that a survey of `source` leads to.
pub open spec fn rewritten(source: Seq<u8>, s: SurveyState) -> Seq<u8> {
    output(source, s.ifds, description_of(s))
}

/// A survey of a file can be planned.
pub proof fn lemma_surveyed(source: Seq<u8>, mode: Mode, n: nat, s: SurveyState)
    requires
        surveyed(source, mode, n, s),
    ensures
        plannable(s.ifds, description_of(s)),
        s.mode == mode,
        forall|i: int| 0 <= i < s.ifds.len() ==> taken_from(source, mode, #[trigger] s.ifds[i]),
{
    law_survey(source, survey_start(mode), n);
    assert forall|i: int| 0 <= i < s.ifds.len() implies well_formed(
        (#[trigger] s.ifds[i]).entries,
    ) by {
        assert(taken_from(source, mode, s.ifds[i]));
    }
}

/// A rewritten file needs no second rewriting: the check finds it consolidated,
/// whatever number of crossings is allowed. Left out are files with an IFD whose
/// sizes of strips follow its sizes of tiles: there sorting changes which of them
/// count.
pub proof fn law_rewritten_is_consolidated(
    source: Seq<u8>,
    mode: Mode,
    n: nat,
    s: SurveyState,
    allowed: u32,
)
    requires
        surveyed(source, mode, n, s),
        forall|i: int| 0 <= i < s.ifds.len() ==> measures_in_order((#[trigger] s.ifds[i]).entries),
    ensures
        check_run(check_start(allowed), whole(rewritten(source, s)), s.ifds.len() + 2) == Ok::<
            Progress,
            Error,
        >(Progress::Verdict(true)),
{
    lemma_surveyed(source, mode, n, s);
    assert forall|i: int| 0 <= i < s.ifds.len() implies read_from(source, #[trigger] s.ifds[i])
        && measures_in_order(s.ifds[i].entries) by {
        assert(taken_from(source, mode, s.ifds[i]));
    }
    law_output_is_consolidated(source, s.ifds, description_of(s), allowed);
}

/// The IFDs of a rewritten file.
pub open spec fn new_ifds(s: SurveyState) -> Seq<Ifd> {
    Seq::new(
        s.ifds.len(),
        |i: int|
            Ifd {
                entries: new_entries(s.ifds, description_of(s), i),
                offsets: new_places(s.ifds, i),
                counts: s.ifds[i].counts,
            },
    )
}

/// The rest of a survey of the output, from the IFD at index `k` on.
#[verifier::spinoff_prover]
#[verifier::rlimit(30)]
proof fn lemma_survey_rest(source: Seq<u8>, s: SurveyState, t: SurveyState, k: int)
    requires
        plannable(s.ifds, description_of(s)),
        forall|i: int|
            0 <= i < s.ifds.len() ==> read_from(source, #[trigger] s.ifds[i]) && measures_in_order(
                s.ifds[i].entries,
            ),
        0 <= k <= s.ifds.len(),
        t.mode == Mode::Consolidate,
        t.ifds == new_ifds(s).take(k),
        t.next == Some(
            if k < s.ifds.len() {
                new_offset(s.ifds, description_of(s), k)
            } else {
                0u64
            },
        ),
    ensures
        survey_run(t, whole(rewritten(source, s)), (s.ifds.len() - k) as nat) matches Ok(u)
            && u.ifds == new_ifds(s) && u.next == Some(0u64),
    decreases s.ifds.len() - k,
{
    let description = description_of(s);
    let store = whole(rewritten(source, s));
    if k < s.ifds.len() {
        law_output_places(s.ifds, description, k, k);
        law_output_ifd(source, s.ifds, description, k);
        assert(read_from(source, s.ifds[k]));
        law_output_blocks(source, s.ifds, description, k);
        let next = add_ifd(
            t,
            new_entries(s.ifds, description, k),
            new_link(s.ifds, description, k),
            new_places(s.ifds, k),
            s.ifds[k].counts,
            Map::empty(),
        );
        assert(next.ifds =~= new_ifds(s).take(k + 1));
        lemma_survey_rest(source, s, next, k + 1);
    } else {
        assert(t.ifds =~= new_ifds(s));
    }
}

/// A survey of a rewritten file finds the same number of IFDs in the same order,
/// each with its new entries, the new places of its image data and the old sizes.
#[verifier::spinoff_prover]
#[verifier::rlimit(30)]
pub proof fn law_survey_of_rewritten(source: Seq<u8>, mode: Mode, n: nat, s: SurveyState)
    requires
        surveyed(source, mode, n, s),
        forall|i: int| 0 <= i < s.ifds.len() ==> measures_in_order((#[trigger] s.ifds[i]).entries),
    ensures
        survey_run(
            survey_start(Mode::Consolidate),
            whole(rewritten(source, s)),
            s.ifds.len() + 1,
        ) matches Ok(u) && u.ifds == new_ifds(s) && u.next == Some(0u64),
{
    lemma_surveyed(source, mode, n, s);
    assert forall|i: int| 0 <= i < s.ifds.len() implies read_from(source, #[trigger] s.ifds[i])
        && measures_in_order(s.ifds[i].entries) by {
        assert(taken_from(source, mode, s.ifds[i]));
    }
    law_output_header(source, s.ifds, description_of(s));
    let start = survey_start(Mode::Consolidate);
    let t = SurveyState { next: Some(new_offset(s.ifds, description_of(s), 0)), ..start };
    assert(t.ifds =~= new_ifds(s).take(0));
    lemma_survey_rest(source, s, t, 0);
}

/// Where nothing is stripped, every IFD of the output has the same metadata as
/// that of the input.
pub proof fn law_metadata_preserved(source: Seq<u8>, n: nat, s: SurveyState, i: int)
    requires
        surveyed(source, Mode::Consolidate, n, s),
        0 <= i < s.ifds.len(),
        metadata_of(whole(source), s.ifds[i].entries) is Ok,
    ensures
        metadata_of(whole(rewritten(source, s)), new_ifds(s)[i].entries) == metadata_of(
            whole(source),
            s.ifds[i].entries,
        ),
{
    lemma_surveyed(source, Mode::Consolidate, n, s);
    law_output_metadata(source, s.ifds, i);
}

/// Where metadata is stripped, no entry of the output holds any, except the new
/// description in the first IFD.
#[verifier::spinoff_prover]
#[verifier::rlimit(30)]
pub proof fn law_no_metadata_left(
    source: Seq<u8>,
    mode: Mode,
    n: nat,
    s: SurveyState,
    i: int,
    e: Entry,
)
    requires
        surveyed(source, mode, n, s),
        mode != Mode::Consolidate,
        0 <= i < s.ifds.len(),
        new_entries(s.ifds, description_of(s), i).contains(e),
    ensures
        is_kept(e) || (mode == Mode::Ome && i == 0 && describes(e, description_of(s)->0)),
{
    broadcast use vstd::seq_lib::group_to_multiset_ensures;

    let description = description_of(s);
    let made = made_entries(s.ifds, description, i);
    lemma_surveyed(source, mode, n, s);
    law_output_entries(s.ifds, description, i);
    assert(made.to_multiset().count(e) > 0);
    assert(made.contains(e));
    let j = choose|j: int| 0 <= j < made.len() && made[j] == e;
    assert(taken_from(source, mode, s.ifds[i]));
    if j < s.ifds[i].entries.len() {
        law_output_entry(source, s.ifds, description, i, j);
        assert(s.ifds[i].entries.contains(s.ifds[i].entries[j]));
    } else {
        law_output_description(source, s.ifds, description->0);
    }
}

} // verus!
