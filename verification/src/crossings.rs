//! What the check counts, seen from the end: the IFDs that stand before the end of
//! the image data.
use vstd::prelude::*;

use crate::consolidated::{block_count, check_run, check_start, check_step, meet_block, meet_ifd,
    scan_blocks, CheckState, Progress, Scan, Tally};
use crate::entry::Entry;
use crate::error::Error;
use crate::reader::{blocks, first_ifd, ifd_at, Extent};

verus! {

/// The larger of two numbers.
pub open spec fn larger(a: int, b: int) -> int {
    if a >= b {
        a
    } else {
        b
    }
}

/// The largest end of the first `n` blocks, zero where there are none.
pub open spec fn largest_end(offsets: Seq<u64>, counts: Seq<u64>, n: nat) -> int
    decreases n,
{
    if n == 0 {
        0
    } else {
        larger(
            largest_end(offsets, counts, (n - 1) as nat),
            offsets[n - 1] + counts[n - 1],
        )
    }
}

/// The places of the IFDs in the chain from `offset` on, and the largest end of
/// their image data. There is nothing where the chain has more than `n` IFDs, an
/// IFD cannot be read, or image data ends beyond the last addressable byte.
pub open spec fn walk(store: Seq<Extent>, offset: u64, n: nat) -> Option<(Seq<u64>, int)>
    decreases n,
{
    if offset == 0 {
        Some((Seq::empty(), 0))
    } else if n == 0 {
        None
    } else {
        match ifd_at(store, offset) {
            Err(_) => None,
            Ok((entries, next)) => match blocks(store, entries) {
                Err(_) => None,
                Ok((offsets, counts)) => {
                    let both = if offsets.len() <= counts.len() {
                        offsets.len()
                    } else {
                        counts.len()
                    };
                    let end = largest_end(offsets, counts, both);
                    match walk(store, next, (n - 1) as nat) {
                        Some((places, rest_end)) if end <= u64::MAX => Some(
                            (seq![offset] + places, larger(end, rest_end)),
                        ),
                        _ => None,
                    }
                },
            },
        }
    }
}

/// The places of the IFDs in the chain from `offset` on.
pub open spec fn chain_places(store: Seq<Extent>, offset: u64, n: nat) -> Seq<u64> {
    match walk(store, offset, n) {
        Some((places, _)) => places,
        None => Seq::empty(),
    }
}

/// The largest end of the image data of the chain from `offset` on.
pub open spec fn chain_end(store: Seq<Extent>, offset: u64, n: nat) -> int {
    match walk(store, offset, n) {
        Some((_, end)) => end,
        None => 0,
    }
}

/// How many places are below `end`.
pub open spec fn below(places: Seq<u64>, end: int) -> nat
    decreases places.len(),
{
    if places.len() == 0 {
        0
    } else {
        below(places.drop_last(), end) + if places.last() < end {
            1nat
        } else {
            0
        }
    }
}

/// More places and a larger end leave no fewer below.
proof fn lemma_below_grows(places: Seq<u64>, more: Seq<u64>, a: int, b: int)
    requires
        a <= b,
    ensures
        below(places, a) <= below(places + more, b),
    decreases places.len() + more.len(),
{
    if more.len() > 0 {
        lemma_below_grows(places, more.drop_last(), a, b);
        assert((places + more).drop_last() =~= places + more.drop_last());
    } else {
        assert(places + more =~= places);
        if places.len() > 0 {
            lemma_below_grows(places.drop_last(), more, a, b);
            assert(places.drop_last() + more =~= places.drop_last());
        }
    }
}

/// The places from `a` up to, not including, `b`.
spec fn between(places: Seq<u64>, a: int, b: int) -> Set<u64> {
    places.to_set().filter(|p: u64| a <= p < b)
}

/// Different places between two ends are as many as the second has more below it.
proof fn lemma_between(places: Seq<u64>, a: int, b: int)
    requires
        places.no_duplicates(),
        a <= b,
    ensures
        between(places, a, b).finite(),
        below(places, a) + between(places, a, b).len() == below(places, b),
    decreases places.len(),
{
    if places.len() == 0 {
        assert(between(places, a, b) =~= Set::<u64>::empty());
    } else {
        let front = places.drop_last();
        let last = places.last();
        lemma_between(front, a, b);
        assert(!front.contains(last));
        assert forall|p: u64| places.contains(p) <==> front.contains(p) || p == last by {
            if front.contains(p) {
                let k = choose|k: int| 0 <= k < front.len() && front[k] == p;
                assert(places[k] == p);
            }
            if places.contains(p) && p != last {
                let k = choose|k: int| 0 <= k < places.len() && places[k] == p;
                assert(front[k] == p);
            }
            assert(places[places.len() - 1] == last);
        }
        if a <= last < b {
            assert(between(places, a, b) =~= between(front, a, b).insert(last));
        } else {
            assert(between(places, a, b) =~= between(front, a, b));
        }
    }
}

/// The tally of a walk that has met IFDs at `places` and image data up to `end`.
spec fn tallied(t: Tally, places: Seq<u64>, end: int) -> bool {
    &&& t.max_image_end == end
    &&& t.crossings == below(places, end)
    &&& forall|p: u64| #[trigger]
        t.positions.contains(p) <==> places.contains(p) && p >= end
}

/// An IFD is tallied.
proof fn lemma_tally_ifd(t: Tally, places: Seq<u64>, end: int, offset: u64)
    requires
        tallied(t, places, end),
    ensures
        tallied(meet_ifd(t, offset), places.push(offset), end),
{
    let more = places.push(offset);
    assert(more.drop_last() =~= places);
    assert forall|p: u64| more.contains(p) <==> places.contains(p) || p == offset by {
        if places.contains(p) {
            let k = choose|k: int| 0 <= k < places.len() && places[k] == p;
            assert(more[k] == p);
        }
        assert(more[places.len() as int] == offset);
    }
}

/// A block is tallied.
proof fn lemma_tally_block(t: Tally, places: Seq<u64>, end: int, block: u64)
    requires
        tallied(t, places, end),
        places.no_duplicates(),
    ensures
        tallied(meet_block(t, block), places, larger(end, block as int)),
{
    let top = larger(end, block as int);
    lemma_between(places, end, top);
    assert(t.positions.filter(|p: u64| p < block) =~= between(places, end, top));
}

/// Blocks are tallied, until there are too many crossings.
proof fn lemma_tally_blocks(
    t: Tally,
    places: Seq<u64>,
    end: int,
    offsets: Seq<u64>,
    counts: Seq<u64>,
    allowed: u32,
    n: nat,
)
    requires
        tallied(t, places, end),
        places.no_duplicates(),
        t.crossings <= allowed,
        largest_end(offsets, counts, n) <= u64::MAX,
    ensures
        match scan_blocks(t, offsets, counts, allowed, n) {
            Scan::Going(u) => u.crossings <= allowed && tallied(
                u,
                places,
                larger(end, largest_end(offsets, counts, n)),
            ),
            Scan::Exceeded => below(places, larger(end, largest_end(offsets, counts, n)))
                > allowed,
            Scan::Failed(_) => false,
        },
    decreases n,
{
    if n > 0 {
        let m = (n - 1) as nat;
        lemma_tally_blocks(t, places, end, offsets, counts, allowed, m);
        let before = larger(end, largest_end(offsets, counts, m));
        let after = larger(end, largest_end(offsets, counts, n));
        match scan_blocks(t, offsets, counts, allowed, m) {
            Scan::Going(u) => {
                lemma_tally_block(u, places, before, (offsets[n - 1] + counts[n - 1]) as u64);
            },
            Scan::Exceeded => {
                lemma_below_grows(places, Seq::empty(), before, after);
                assert(places + Seq::<u64>::empty() =~= places);
            },
            Scan::Failed(_) => {},
        }
    }
}

/// A walk with room for more IFDs finds the same.
proof fn lemma_walk_more(store: Seq<Extent>, offset: u64, m: nat, n: nat)
    requires
        m <= n,
        walk(store, offset, m) is Some,
    ensures
        walk(store, offset, n) == walk(store, offset, m),
    decreases m,
{
    if offset != 0 {
        if let Ok((entries, next)) = ifd_at(store, offset) {
            lemma_walk_more(store, next, (m - 1) as nat, (n - 1) as nat);
        }
    }
}

/// From each IFD of a walk on, the rest of it is a walk.
proof fn lemma_walk_suffix(store: Seq<Extent>, offset: u64, n: nat, i: int)
    requires
        walk(store, offset, n) matches Some((places, end)) && 0 <= i < places.len(),
    ensures
        ({
            let places = chain_places(store, offset, n);
            walk(store, places[i], n) matches Some((rest, end)) && rest == places.skip(i)
        }),
    decreases n,
{
    let places = chain_places(store, offset, n);
    if i == 0 {
        assert(places.skip(0) =~= places);
    } else if let Ok((entries, next)) = ifd_at(store, offset) {
        let m = (n - 1) as nat;
        let tail = chain_places(store, next, m);
        lemma_walk_suffix(store, next, m, i - 1);
        assert(places[i] == tail[i - 1]);
        assert(places.skip(i) =~= tail.skip(i - 1));
        lemma_walk_more(store, tail[i - 1], m, n);
    }
}

/// A chain that ends visits no IFD twice.
pub proof fn law_chain_has_no_cycle(store: Seq<Extent>, offset: u64, n: nat)
    requires
        walk(store, offset, n) is Some,
    ensures
        chain_places(store, offset, n).no_duplicates(),
{
    let places = chain_places(store, offset, n);
    assert forall|i: int, j: int| 0 <= i < j < places.len() implies places[i] != places[j] by {
        lemma_walk_suffix(store, offset, n, i);
        lemma_walk_suffix(store, offset, n, j);
        if places[i] == places[j] {
            assert(places.skip(i).len() == places.skip(j).len());
        }
    }
}

/// The rest of the check, after the IFDs at `seen` and image data up to `end`.
#[verifier::spinoff_prover]
#[verifier::rlimit(30)]
proof fn lemma_rest_of_check(
    s: CheckState,
    store: Seq<Extent>,
    offset: u64,
    n: nat,
    seen: Seq<u64>,
    end: int,
)
    requires
        s.next == Some(offset),
        walk(store, offset, n) is Some,
        tallied(s.tally, seen, end),
        s.tally.crossings <= s.allowed,
        (seen + chain_places(store, offset, n)).no_duplicates(),
    ensures
        ({
            let rest = chain_places(store, offset, n);
            let rest_end = chain_end(store, offset, n);
            check_run(s, store, rest.len() + 1) == Ok::<Progress, Error>(
                Progress::Verdict(below(seen + rest, larger(end, rest_end)) <= s.allowed),
            )
        }),
    decreases n,
{
    let (rest, rest_end) = walk(store, offset, n)->0;
    let all = seen + rest;
    let all_end = larger(end, rest_end);
    if offset == 0 {
        assert(all =~= seen);
        reveal_with_fuel(check_run, 2);
    } else {
        let (entries, next) = ifd_at(store, offset)->Ok_0;
        let (offsets, counts) = blocks(store, entries)->Ok_0;
        let k = block_count(offsets, counts);
        let own_end = largest_end(offsets, counts, k);
        let (tail, tail_end) = walk(store, next, (n - 1) as nat)->0;
        let now = seen.push(offset);
        let t = meet_ifd(s.tally, offset);
        assert(now + tail =~= all);
        assert forall|i: int, j: int| 0 <= i < j < now.len() implies now[i] != now[j] by {
            assert(all[i] == now[i] && all[j] == now[j]);
        }
        lemma_tally_ifd(s.tally, seen, end, offset);
        if t.crossings > s.allowed {
            lemma_below_grows(now, tail, end, all_end);
        } else {
            lemma_tally_blocks(t, now, end, offsets, counts, s.allowed, k);
            let now_end = larger(end, own_end);
            match scan_blocks(t, offsets, counts, s.allowed, k) {
                Scan::Going(u) => {
                    let after = CheckState { next: Some(next), tally: u, ..s };
                    lemma_rest_of_check(after, store, next, (n - 1) as nat, now, now_end);
                    assert(larger(now_end, tail_end) == all_end);
                },
                Scan::Exceeded => {
                    lemma_below_grows(now, tail, now_end, all_end);
                },
                Scan::Failed(_) => {},
            }
        }
    }
}

/// What the check decides: a file whose chain of IFDs ends passes if and only if
/// no more IFDs than are allowed stand before the end of its image data.
pub proof fn law_check_verdict(store: Seq<Extent>, first: u64, n: nat, allowed: u32)
    requires
        first_ifd(store) == Ok::<u64, Error>(first),
        walk(store, first, n) is Some,
    ensures
        ({
            let places = chain_places(store, first, n);
            let end = chain_end(store, first, n);
            check_run(check_start(allowed), store, places.len() + 2) == Ok::<Progress, Error>(
                Progress::Verdict(below(places, end) <= allowed),
            )
        }),
{
    let (places, end) = walk(store, first, n)->0;
    let s = CheckState { next: Some(first), ..check_start(allowed) };
    let none = Seq::<u64>::empty();
    law_chain_has_no_cycle(store, first, n);
    lemma_end_is_natural(store, first, n);
    assert(none + places =~= places);
    lemma_rest_of_check(s, store, first, n, none, 0);
}

/// No end is negative.
proof fn lemma_end_is_natural(store: Seq<Extent>, offset: u64, n: nat)
    requires
        walk(store, offset, n) is Some,
    ensures
        chain_end(store, offset, n) >= 0,
    decreases n,
{
    if offset != 0 {
        if let Ok((entries, next)) = ifd_at(store, offset) {
            lemma_end_is_natural(store, next, (n - 1) as nat);
        }
    }
}

/// Blocks that were all counted end at addressable bytes.
proof fn lemma_counted_blocks(
    t: Tally,
    offsets: Seq<u64>,
    counts: Seq<u64>,
    allowed: u32,
    n: nat,
)
    requires
        scan_blocks(t, offsets, counts, allowed, n) is Going,
    ensures
        largest_end(offsets, counts, n) <= u64::MAX,
    decreases n,
{
    if n > 0 {
        lemma_counted_blocks(t, offsets, counts, allowed, (n - 1) as nat);
    }
}

/// The check goes to the end of the chain before it passes a file.
proof fn lemma_passed_walk(s: CheckState, store: Seq<Extent>, offset: u64, n: nat)
    requires
        s.next == Some(offset),
        check_run(s, store, n) == Ok::<Progress, Error>(Progress::Verdict(true)),
    ensures
        walk(store, offset, n) is Some,
    decreases n,
{
    if offset != 0 {
        let t = meet_ifd(s.tally, offset);
        let (entries, next) = ifd_at(store, offset)->Ok_0;
        let (offsets, counts) = blocks(store, entries)->Ok_0;
        let k = block_count(offsets, counts);
        let u = scan_blocks(t, offsets, counts, s.allowed, k)->Going_0;
        lemma_counted_blocks(t, offsets, counts, s.allowed, k);
        lemma_passed_walk(
            CheckState { next: Some(next), tally: u, ..s },
            store,
            next,
            (n - 1) as nat,
        );
    }
}

/// A file passes only where all of its chain could be read, and no more IFDs than
/// are allowed stand before the end of its image data.
pub proof fn law_passed(store: Seq<Extent>, n: nat, allowed: u32)
    requires
        check_run(check_start(allowed), store, n) == Ok::<Progress, Error>(Progress::Verdict(true)),
    ensures
        first_ifd(store) is Ok,
        walk(store, first_ifd(store)->Ok_0, n) is Some,
        below(
            chain_places(store, first_ifd(store)->Ok_0, n),
            chain_end(store, first_ifd(store)->Ok_0, n),
        ) <= allowed,
{
    let first = first_ifd(store)->Ok_0;
    let s = CheckState { next: Some(first), ..check_start(allowed) };
    let m = (n - 1) as nat;
    assert(check_run(s, store, m) == Ok::<Progress, Error>(Progress::Verdict(true)));
    lemma_passed_walk(s, store, first, m);
    lemma_walk_more(store, first, m, n);
    law_check_verdict(store, first, n, allowed);
    let places = chain_places(store, first, n);
    lemma_run_more(check_start(allowed), store, places.len() + 2, n);
}

/// Once there is a verdict, more steps change nothing.
proof fn lemma_run_more(s: CheckState, store: Seq<Extent>, m: nat, n: nat)
    requires
        check_run(s, store, m) is Ok,
        check_run(s, store, m)->Ok_0 is Verdict,
        check_run(s, store, n) is Ok,
        check_run(s, store, n)->Ok_0 is Verdict,
    ensures
        check_run(s, store, m) == check_run(s, store, n),
    decreases m,
{
    if let Ok(Progress::Going(t)) = check_step(s, store) {
        lemma_run_more(t, store, (m - 1) as nat, (n - 1) as nat);
    }
}

/// What keeps the check from going on: an IFD or a value that cannot be read is
/// reported as it is, unless there are too many crossings before.
pub proof fn law_check_errors(s: CheckState, store: Seq<Extent>, offset: u64, e: Error)
    requires
        s.next == Some(offset),
        offset != 0,
        s.tally.crossings + (if offset < s.tally.max_image_end {
            1int
        } else {
            0
        }) <= s.allowed,
    ensures
        ifd_at(store, offset) == Err::<(Seq<Entry>, u64), Error>(e) ==> check_step(s, store)
            == Err::<Progress, Error>(e),
        ifd_at(store, offset) matches Ok((entries, next)) ==> blocks(store, entries) == Err::<
            (Seq<u64>, Seq<u64>),
            Error,
        >(e) ==> check_step(s, store) == Err::<Progress, Error>(e),
{
}

/// Blocks can be counted unless there are too many crossings or one ends beyond the
/// last addressable byte.
proof fn lemma_failed_blocks(
    t: Tally,
    offsets: Seq<u64>,
    counts: Seq<u64>,
    allowed: u32,
    n: nat,
)
    ensures
        scan_blocks(t, offsets, counts, allowed, n) matches Scan::Failed(e) ==> e
            is BlockOutOfRange && largest_end(offsets, counts, n) > u64::MAX,
        n > 0 && offsets[0] + counts[0] > u64::MAX ==> scan_blocks(t, offsets, counts, allowed, n)
            is Failed,
    decreases n,
{
    if n > 0 {
        lemma_failed_blocks(t, offsets, counts, allowed, (n - 1) as nat);
        reveal_with_fuel(scan_blocks, 2);
    }
}

/// The entries of an IFD that can be read.
pub open spec fn entries_at(store: Seq<Extent>, offset: u64) -> Seq<Entry> {
    match ifd_at(store, offset) {
        Ok((entries, _)) => entries,
        Err(_) => Seq::empty(),
    }
}

/// A block that ends beyond the last addressable byte is never passed over: the
/// check fails with it, unless it has found too many crossings before. It fails in
/// this way for no other reason.
pub proof fn law_check_out_of_range(s: CheckState, store: Seq<Extent>, offset: u64)
    requires
        s.next == Some(offset),
        offset != 0,
        s.tally.crossings + (if offset < s.tally.max_image_end {
            1int
        } else {
            0
        }) <= s.allowed,
        ifd_at(store, offset) is Ok,
        blocks(store, entries_at(store, offset)) is Ok,
    ensures
        ({
            let (offsets, counts) = blocks(store, entries_at(store, offset))->Ok_0;
            let both = if offsets.len() <= counts.len() {
                offsets.len()
            } else {
                counts.len()
            };
            let r = check_step(s, store);
            &&& largest_end(offsets, counts, both) > u64::MAX ==> r == Err::<Progress, Error>(
                Error::BlockOutOfRange,
            ) || r == Ok::<Progress, Error>(Progress::Verdict(false))
            &&& both > 0 && offsets[0] + counts[0] > u64::MAX ==> r == Err::<Progress, Error>(
                Error::BlockOutOfRange,
            )
            &&& largest_end(offsets, counts, both) <= u64::MAX ==> r is Ok
        }),
{
    let (offsets, counts) = blocks(store, entries_at(store, offset))->Ok_0;
    let t = meet_ifd(s.tally, offset);
    let k = block_count(offsets, counts);
    lemma_failed_blocks(t, offsets, counts, s.allowed, k);
    if scan_blocks(t, offsets, counts, s.allowed, k) is Going {
        lemma_counted_blocks(t, offsets, counts, s.allowed, k);
    }
}

} // verus!
