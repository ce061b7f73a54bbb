//! Deciding whether the IFDs of a file already stand at its end.
//!
//! In a consolidated file all image data has low addresses and all IFDs have
//! high ones; in an interleaved file they are mixed. The check walks the chain
//! of IFDs and counts crossings. A crossing is an IFD that stands before the end
//! of image data seen earlier, or an IFD that later image data extends past;
//! such an IFD is out of place and is not counted again. A few crossings are
//! tolerated, for instance a first IFD at the beginning of the file.
use vstd::prelude::*;

use crate::entry::{entry_views, Entry, IfdEntry};
use crate::error::Error;
use crate::reader::{blocks, first_ifd, get_offsets_and_counts, ifd_at, BigTiffReader, Extent};

verus! {

/// Crossings that are tolerated where the user names no number.
pub const DEFAULT_ALLOWED_CROSSINGS: u32 = 10;

/// What a walk along the chain of IFDs has counted.
#[verifier::ext_equal]
pub struct Tally {
    /// IFDs that are not out of place so far.
    pub positions: Set<u64>,
    /// Largest end of image data so far.
    pub max_image_end: u64,
    /// IFDs found out of place.
    pub crossings: nat,
}

/// Counts an IFD at `offset`.
pub open spec fn meet_ifd(t: Tally, offset: u64) -> Tally {
    if offset < t.max_image_end {
        Tally { crossings: t.crossings + 1, ..t }
    } else {
        Tally { positions: t.positions.insert(offset), ..t }
    }
}

/// Counts a block of image data that ends at `end`.
pub open spec fn meet_block(t: Tally, end: u64) -> Tally {
    Tally {
        positions: t.positions.filter(|p: u64| p >= end),
        max_image_end: if end > t.max_image_end {
            end
        } else {
            t.max_image_end
        },
        crossings: t.crossings + t.positions.filter(|p: u64| p < end).len(),
    }
}

/// Outcome of counting blocks.
pub enum Scan {
    Going(Tally),
    Exceeded,
    Failed(Error),
}

/// Counts the first `n` blocks; ends at the first one that brings the crossings
/// above what is allowed, or that ends beyond the last addressable byte.
pub open spec fn scan_blocks(
    t: Tally,
    offsets: Seq<u64>,
    counts: Seq<u64>,
    allowed: u32,
    n: nat,
) -> Scan
    decreases n,
{
    if n == 0 {
        Scan::Going(t)
    } else {
        match scan_blocks(t, offsets, counts, allowed, (n - 1) as nat) {
            Scan::Going(u) => {
                let end = offsets[n - 1] + counts[n - 1];
                if end > u64::MAX {
                    Scan::Failed(Error::BlockOutOfRange)
                } else if meet_block(u, end as u64).crossings > allowed {
                    Scan::Exceeded
                } else {
                    Scan::Going(meet_block(u, end as u64))
                }
            },
            other => other,
        }
    }
}

/// How many blocks have both a place and a size.
pub open spec fn block_count(offsets: Seq<u64>, counts: Seq<u64>) -> nat {
    if offsets.len() <= counts.len() {
        offsets.len()
    } else {
        counts.len()
    }
}

/// State of the check between two steps.
#[verifier::ext_equal]
pub struct CheckState {
    pub allowed: u32,
    /// Place of the IFD to visit next, once the header was read; zero at the
    /// end of the chain.
    pub next: Option<u64>,
    pub tally: Tally,
}

/// State of the check before its first step.
pub open spec fn check_start(allowed: u32) -> CheckState {
    CheckState {
        allowed,
        next: None,
        tally: Tally { positions: Set::empty(), max_image_end: 0, crossings: 0 },
    }
}

/// What a step of the check leads to.
pub enum Progress {
    Going(CheckState),
    Verdict(bool),
}

/// One step of the check: reads the header, or visits one IFD, or ends. The
/// verdict is `true` at the end of the chain and `false` as soon as there are
/// too many crossings.
pub open spec fn check_step(s: CheckState, store: Seq<Extent>) -> Result<Progress, Error> {
    match s.next {
        None => match first_ifd(store) {
            Err(e) => Err(e),
            Ok(offset) => Ok(Progress::Going(CheckState { next: Some(offset), ..s })),
        },
        Some(offset) => {
            let t = meet_ifd(s.tally, offset);
            if offset == 0 {
                Ok(Progress::Verdict(true))
            } else if t.crossings > s.allowed {
                Ok(Progress::Verdict(false))
            } else {
                match ifd_at(store, offset) {
                    Err(e) => Err(e),
                    Ok((entries, next)) => match blocks(store, entries) {
                        Err(e) => Err(e),
                        Ok((offsets, counts)) => match scan_blocks(
                            t,
                            offsets,
                            counts,
                            s.allowed,
                            block_count(offsets, counts),
                        ) {
                            Scan::Going(u) => Ok(
                                Progress::Going(CheckState { next: Some(next), tally: u, ..s }),
                            ),
                            Scan::Exceeded => Ok(Progress::Verdict(false)),
                            Scan::Failed(e) => Err(e),
                        },
                    },
                }
            }
        },
    }
}

/// At most `n` steps of the check over the same bytes.
pub open spec fn check_run(s: CheckState, store: Seq<Extent>, n: nat) -> Result<Progress, Error>
    decreases n,
{
    if n == 0 {
        Ok(Progress::Going(s))
    } else {
        match check_step(s, store) {
            Ok(Progress::Going(t)) => check_run(t, store, (n - 1) as nat),
            other => other,
        }
    }
}

/// A state of the check with another number of crossings allowed.
spec fn allowing(s: CheckState, allowed: u32) -> CheckState {
    CheckState { allowed, ..s }
}

/// Where more is allowed, blocks are counted alike as long as less was enough.
proof fn lemma_scan_lenient(
    t: Tally,
    offsets: Seq<u64>,
    counts: Seq<u64>,
    strict: u32,
    lenient: u32,
    n: nat,
)
    requires
        strict <= lenient,
        scan_blocks(t, offsets, counts, strict, n) is Going,
    ensures
        scan_blocks(t, offsets, counts, lenient, n) == scan_blocks(t, offsets, counts, strict, n),
    decreases n,
{
    if n > 0 {
        lemma_scan_lenient(t, offsets, counts, strict, lenient, (n - 1) as nat);
    }
}

/// A file that passes the check still passes it where more crossings are allowed.
pub proof fn law_lenient_check(s: CheckState, store: Seq<Extent>, n: nat, lenient: u32)
    requires
        s.allowed <= lenient,
        check_run(s, store, n) == Ok::<Progress, Error>(Progress::Verdict(true)),
    ensures
        check_run(CheckState { allowed: lenient, ..s }, store, n) == Ok::<Progress, Error>(
            Progress::Verdict(true),
        ),
    decreases n,
{
    if n > 0 {
        let l = allowing(s, lenient);
        match s.next {
            None => {},
            Some(offset) => {
                if let Ok((entries, next)) = ifd_at(store, offset) {
                    if let Ok((offsets, counts)) = blocks(store, entries) {
                        let t = meet_ifd(s.tally, offset);
                        let k = block_count(offsets, counts);
                        if scan_blocks(t, offsets, counts, s.allowed, k) is Going {
                            lemma_scan_lenient(t, offsets, counts, s.allowed, lenient, k);
                        }
                    }
                }
            },
        }
        if let Ok(Progress::Going(t)) = check_step(s, store) {
            assert(check_step(l, store) == Ok::<Progress, Error>(
                Progress::Going(allowing(t, lenient)),
            ));
            law_lenient_check(t, store, (n - 1) as nat, lenient);
        }
    }
}

/// No more IFDs are known than `seen`, each either in place or counted as a
/// crossing.
pub open spec fn each_counted_once(t: Tally, seen: nat) -> bool {
    t.positions.finite() && t.crossings + t.positions.len() <= seen
}

/// An IFD is counted once.
proof fn lemma_meet_ifd_once(t: Tally, offset: u64, seen: nat)
    requires
        each_counted_once(t, seen),
    ensures
        each_counted_once(meet_ifd(t, offset), seen + 1),
{
}

/// Blocks turn IFDs in place into crossings, and count none twice.
proof fn lemma_scan_once(
    t: Tally,
    offsets: Seq<u64>,
    counts: Seq<u64>,
    allowed: u32,
    n: nat,
    seen: nat,
)
    requires
        each_counted_once(t, seen),
    ensures
        scan_blocks(t, offsets, counts, allowed, n) matches Scan::Going(u) ==> each_counted_once(
            u,
            seen,
        ),
    decreases n,
{
    if n > 0 {
        lemma_scan_once(t, offsets, counts, allowed, (n - 1) as nat, seen);
        if let Scan::Going(u) = scan_blocks(t, offsets, counts, allowed, (n - 1) as nat) {
            let end = (offsets[n - 1] + counts[n - 1]) as u64;
            let low = u.positions.filter(|p: u64| p < end);
            let high = u.positions.filter(|p: u64| p >= end);
            assert(low.disjoint(high));
            assert(low + high =~= u.positions);
            vstd::set_lib::lemma_set_disjoint_lens(low, high);
        }
    }
}

/// The check counts every IFD that it visits at most once as a crossing: the
/// crossings and the IFDs still in place together are never more than the IFDs
/// visited.
pub proof fn law_crossings_bounded(s: CheckState, store: Seq<Extent>, seen: nat)
    requires
        each_counted_once(s.tally, seen),
    ensures
        check_step(s, store) matches Ok(Progress::Going(t)) ==> each_counted_once(
            t.tally,
            if s.next is None {
                seen
            } else {
                seen + 1
            },
        ),
{
    if let Some(offset) = s.next {
        lemma_meet_ifd_once(s.tally, offset, seen);
        if let Ok((entries, next)) = ifd_at(store, offset) {
            if let Ok((offsets, counts)) = blocks(store, entries) {
                lemma_scan_once(
                    meet_ifd(s.tally, offset),
                    offsets,
                    counts,
                    s.allowed,
                    block_count(offsets, counts),
                    seen + 1,
                );
            }
        }
    }
}

/// The check in progress.
pub struct ConsolidationCheck {
    allowed_crossings: u32,
    next_ifd: Option<u64>,
    /// In ascending order, so that the smallest is found first.
    ifd_positions: Vec<u64>,
    max_image_end: u64,
    crossings: u32,
}

impl View for ConsolidationCheck {
    type V = CheckState;

    closed spec fn view(&self) -> CheckState {
        CheckState {
            allowed: self.allowed_crossings,
            next: self.next_ifd,
            tally: Tally {
                positions: self.ifd_positions@.to_set(),
                max_image_end: self.max_image_end,
                crossings: self.crossings as nat,
            },
        }
    }
}

/// Strictly ascending order.
spec fn ascending(s: Seq<u64>) -> bool {
    forall|i: int, j: int| 0 <= i < j < s.len() ==> s[i] < s[j]
}

/// Adds a number to an ascending list, unless it is there.
fn insert_ascending(v: &mut Vec<u64>, x: u64)
    requires
        ascending(old(v)@),
    ensures
        ascending(final(v)@),
        final(v)@.to_set() == old(v)@.to_set().insert(x),
{
    let mut i: usize = v.len();
    while i > 0 && v[i - 1] > x
        invariant
            i <= v@.len(),
            v@ == old(v)@,
            ascending(v@),
            forall|j: int| i <= j < v@.len() ==> v@[j] > x,
        decreases i,
    {
        i = i - 1;
    }
    if i > 0 && v[i - 1] == x {
        proof {
            assert(v@.contains(v@[i - 1]));
            assert(v@.to_set() =~= v@.to_set().insert(x));
        }
        return ;
    }
    v.insert(i, x);
    proof {
        let before = old(v)@;
        let after = v@;
        assert(after =~= before.insert(i as int, x));
        assert forall|y: u64| after.to_set().contains(y) <==> before.to_set().insert(x).contains(
            y,
        ) by {
            if after.contains(y) {
                let k = choose|k: int| 0 <= k < after.len() && after[k] == y;
                if k < i {
                    assert(before[k] == y);
                } else if k > i {
                    assert(before[k - 1] == y);
                }
            }
            if before.contains(y) {
                let k = choose|k: int| 0 <= k < before.len() && before[k] == y;
                if k < i {
                    assert(after[k] == y);
                } else {
                    assert(after[k + 1] == y);
                }
            }
            if y == x {
                assert(after[i as int] == y);
            }
        }
        assert(after.to_set() =~= before.to_set().insert(x));
    }
}

/// Removing the smallest number of an ascending list takes it out of the set.
proof fn lemma_remove_first(s: Seq<u64>)
    requires
        ascending(s),
        s.len() > 0,
    ensures
        ascending(s.remove(0)),
        s.remove(0).to_set() == s.to_set().remove(s[0]),
        s.to_set().contains(s[0]),
{
    let rest = s.remove(0);
    assert forall|i: int| 0 <= i < rest.len() implies #[trigger] rest[i] == s[i + 1] by {}
    assert(s.contains(s[0]));
    assert forall|y: u64| rest.to_set().contains(y) <==> s.to_set().remove(s[0]).contains(y) by {
        if rest.contains(y) {
            let k = choose|k: int| 0 <= k < rest.len() && rest[k] == y;
            assert(s[k + 1] == y);
        }
        if s.contains(y) && y != s[0] {
            let k = choose|k: int| 0 <= k < s.len() && s[k] == y;
            assert(rest[k - 1] == y);
        }
    }
    assert(rest.to_set() =~= s.to_set().remove(s[0]));
}

impl ConsolidationCheck {
    /// What holds between two steps.
    pub closed spec fn wf(self) -> bool {
        &&& ascending(self.ifd_positions@)
        &&& self.crossings <= self.allowed_crossings
    }

    /// A check that tolerates `allowed_crossings` IFDs out of place.
    pub fn new(allowed_crossings: u32) -> (r: ConsolidationCheck)
        ensures
            r.wf(),
            r@ == check_start(allowed_crossings),
    {
        let r = ConsolidationCheck {
            allowed_crossings,
            next_ifd: None,
            ifd_positions: Vec::new(),
            max_image_end: 0,
            crossings: 0,
        };
        assert(r@.tally.positions =~= Set::<u64>::empty());
        r
    }

    /// Counts a block that ends at `end`; says whether the crossings are still
    /// allowed.
    fn count_block(&mut self, end: u64) -> (ok: bool)
        requires
            old(self).wf(),
        ensures
            final(self).allowed_crossings == old(self).allowed_crossings,
            final(self).next_ifd == old(self).next_ifd,
            final(self).wf(),
            ok == (meet_block(old(self)@.tally, end).crossings <= old(self).allowed_crossings),
            ok ==> final(self)@.tally == meet_block(old(self)@.tally, end),
    {
        let ghost all = self@.tally.positions;
        let ghost start = self.crossings;
        while self.ifd_positions.len() > 0 && self.ifd_positions[0] < end
            invariant
                self.allowed_crossings == old(self).allowed_crossings,
                self.next_ifd == old(self).next_ifd,
                self.max_image_end == old(self).max_image_end,
                start == old(self).crossings,
                all == old(self)@.tally.positions,
                self.wf(),
                self.crossings + self.ifd_positions@.to_set().filter(|p: u64| p < end).len()
                    == start + all.filter(|p: u64| p < end).len(),
                self.ifd_positions@.to_set().filter(|p: u64| p >= end) == all.filter(
                    |p: u64| p >= end,
                ),
            decreases self.ifd_positions@.len(),
        {
            let ghost here = self.ifd_positions@;
            proof {
                broadcast use vstd::seq_lib::seq_to_set_is_finite;

                lemma_remove_first(here);
                here.to_set().lemma_len_filter(|p: u64| p < end);
                assert(here.to_set().filter(|p: u64| p < end).contains(here[0]));
                assert(here.remove(0).to_set().filter(|p: u64| p < end) =~= here.to_set().filter(
                    |p: u64| p < end,
                ).remove(here[0]));
                assert(here.remove(0).to_set().filter(|p: u64| p >= end) =~= here.to_set().filter(
                    |p: u64| p >= end,
                ));
            }
            if self.crossings >= self.allowed_crossings {
                return false;
            }
            self.ifd_positions.remove(0);
            self.crossings = self.crossings + 1;
        }
        proof {
            let rest = self.ifd_positions@.to_set();
            assert forall|p: u64| rest.contains(p) implies p >= end by {
                assert(self.ifd_positions@.contains(p));
                let k = choose|k: int|
                    0 <= k < self.ifd_positions@.len() && self.ifd_positions@[k] == p;
                assert(self.ifd_positions@[0] <= self.ifd_positions@[k]);
            }
            assert(rest.filter(|p: u64| p < end) =~= Set::<u64>::empty());
            assert(rest.filter(|p: u64| p >= end) =~= rest);
        }
        if end > self.max_image_end {
            self.max_image_end = end;
        }
        true
    }
}

/// Takes the check one step further with the bytes that the reader has. Returns
/// the verdict once it is known; the check is then over. Where the step needs
/// more bytes it asks for them, and can be taken again with nothing lost; any
/// other error ends the check.
pub fn check_ifds_consolidated(check: &mut ConsolidationCheck, reader: &BigTiffReader) -> (r: Result<
    Option<bool>,
    Error,
>)
    requires
        old(check).wf(),
    ensures
        final(check).wf(),
        match r {
            Ok(None) => check_step(old(check)@, reader@) == Ok::<Progress, Error>(
                Progress::Going(final(check)@),
            ),
            Ok(Some(verdict)) => check_step(old(check)@, reader@) == Ok::<Progress, Error>(
                Progress::Verdict(verdict),
            ),
            Err(e) => check_step(old(check)@, reader@) == Err::<Progress, Error>(e),
        },
        r matches Err(Error::NeedBytes { .. }) ==> final(check)@ == old(check)@,
{
    let ifd_offset: u64 = match check.next_ifd {
        None => match reader.first_ifd_offset() {
            Err(e) => {
                return Err(e);
            },
            Ok(offset) => {
                check.next_ifd = Some(offset);
                return Ok(None);
            },
        },
        Some(offset) => offset,
    };
    if ifd_offset == 0 {
        return Ok(Some(true));
    }
    let out_of_place: bool = ifd_offset < check.max_image_end;
    if out_of_place && check.crossings >= check.allowed_crossings {
        return Ok(Some(false));
    }
    let (entries, next_ifd): (Vec<IfdEntry>, u64) = match reader.read_ifd(ifd_offset) {
        Ok(r) => r,
        Err(e) => {
            return Err(e);
        },
    };
    let (offsets, counts): (Vec<u64>, Vec<u64>) = match get_offsets_and_counts(&entries, reader) {
        Ok(r) => r,
        Err(e) => {
            return Err(e);
        },
    };
    let ghost before = check@;
    let ghost met = meet_ifd(before.tally, ifd_offset);
    if out_of_place {
        // Not added to the positions: it is already counted as out of place.
        check.crossings = check.crossings + 1;
    } else {
        insert_ascending(&mut check.ifd_positions, ifd_offset);
    }
    check.next_ifd = Some(next_ifd);
    let ghost total = block_count(offsets@, counts@);
    let mut i: usize = 0;
    while i < offsets.len() && i < counts.len()
        invariant
            total == block_count(offsets@, counts@),
            i <= total,
            check.wf(),
            check@.allowed == before.allowed,
            check@.next == Some(next_ifd),
            scan_blocks(met, offsets@, counts@, before.allowed, i as nat) == Scan::Going(
                check@.tally,
            ),
            before.next == Some(ifd_offset),
            ifd_offset != 0,
            met == meet_ifd(before.tally, ifd_offset),
            met.crossings <= before.allowed,
            before == old(check)@,
            ifd_at(reader@, ifd_offset) == Ok::<(Seq<Entry>, u64), Error>(
                (entry_views(entries@), next_ifd),
            ),
            blocks(reader@, entry_views(entries@)) == Ok::<(Seq<u64>, Seq<u64>), Error>(
                (offsets@, counts@),
            ),
        decreases total - i,
    {
        if offsets[i] > u64::MAX - counts[i] {
            proof {
                lemma_scan_stops(met, offsets@, counts@, before.allowed, (i + 1) as nat, total);
            }
            return Err(Error::BlockOutOfRange);
        }
        let end: u64 = offsets[i] + counts[i];
        if !check.count_block(end) {
            proof {
                lemma_scan_stops(met, offsets@, counts@, before.allowed, (i + 1) as nat, total);
            }
            return Ok(Some(false));
        }
        i = i + 1;
    }
    Ok(None)
}

/// Once counting has ended, further blocks change nothing.
proof fn lemma_scan_stops(
    t: Tally,
    offsets: Seq<u64>,
    counts: Seq<u64>,
    allowed: u32,
    m: nat,
    n: nat,
)
    requires
        m <= n,
        !(scan_blocks(t, offsets, counts, allowed, m) is Going),
    ensures
        scan_blocks(t, offsets, counts, allowed, n) == scan_blocks(t, offsets, counts, allowed, m),
    decreases n,
{
    if m < n {
        lemma_scan_stops(t, offsets, counts, allowed, m, (n - 1) as nat);
    }
}

} // verus!
