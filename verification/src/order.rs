//! Putting the entries of an IFD in order of their tags.
use vstd::prelude::*;

use crate::entry::{entry_views, Entry, IfdEntry};

verus! {

/// Puts an entry behind all entries whose tag is not larger.
pub open spec fn insert_by_tag(s: Seq<Entry>, e: Entry) -> Seq<Entry>
    decreases s.len(),
{
    if s.len() == 0 || s.last().tag <= e.tag {
        s.push(e)
    } else {
        insert_by_tag(s.drop_last(), e).push(s.last())
    }
}

/// The entries in order of their tags; entries with the same tag keep their
/// order.
pub open spec fn sort_by_tag(s: Seq<Entry>) -> Seq<Entry>
    decreases s.len(),
{
    if s.len() == 0 {
        Seq::empty()
    } else {
        insert_by_tag(sort_by_tag(s.drop_last()), s.last())
    }
}

/// Where `insert_by_tag` puts an entry.
proof fn lemma_insert_position(s: Seq<Entry>, e: Entry, k: int)
    requires
        0 <= k <= s.len(),
        k > 0 ==> s[k - 1].tag <= e.tag,
        forall|j: int| k <= j < s.len() ==> (#[trigger] s[j]).tag > e.tag,
    ensures
        insert_by_tag(s, e) == s.insert(k, e),
    decreases s.len(),
{
    if s.len() == k {
        assert(s.insert(k, e) =~= s.push(e));
    } else {
        let front = s.drop_last();
        assert(s.last().tag > e.tag);
        assert forall|j: int| k <= j < front.len() implies (#[trigger] front[j]).tag > e.tag by {
            assert(front[j] == s[j]);
        }
        lemma_insert_position(front, e, k);
        assert(front.insert(k, e).push(s.last()) =~= s.insert(k, e));
    }
}

/// Puts entries in order of their tags, as TIFF requires.
pub fn sort_entries(entries: &Vec<IfdEntry>) -> (r: Vec<IfdEntry>)
    ensures
        entry_views(r@) == sort_by_tag(entry_views(entries@)),
{
    let mut r: Vec<IfdEntry> = Vec::new();
    let ghost views = entry_views(entries@);
    let mut i: usize = 0;
    assert(entry_views(r@) =~= Seq::<Entry>::empty());
    while i < entries.len()
        invariant
            i <= entries@.len(),
            views == entry_views(entries@),
            entry_views(r@) == sort_by_tag(views.take(i as int)),
        decreases entries@.len() - i,
    {
        let e: IfdEntry = entries[i];
        let mut k: usize = r.len();
        while k > 0 && r[k - 1].tag > e.tag
            invariant
                k <= r@.len(),
                forall|j: int| k <= j < r@.len() ==> (#[trigger] entry_views(r@)[j]).tag > e.tag,
            decreases k,
        {
            k = k - 1;
        }
        proof {
            let sorted = entry_views(r@);
            if k > 0 {
                assert(sorted[k - 1] == r@[k - 1]@);
            }
            lemma_insert_position(sorted, e@, k as int);
            assert(entry_views(r@.insert(k as int, e)) =~= sorted.insert(k as int, e@));
            assert(views.take(i + 1).drop_last() =~= views.take(i as int));
            assert(views.take(i + 1).last() == e@);
        }
        r.insert(k, e);
        i = i + 1;
    }
    assert(views.take(i as int) =~= views);
    r
}

/// Ascending tags.
pub open spec fn in_tag_order(s: Seq<Entry>) -> bool {
    forall|i: int, j: int| 0 <= i < j < s.len() ==> (#[trigger] s[i]).tag <= (#[trigger] s[j]).tag
}

/// Putting an entry in its place keeps the order, adds nothing but the entry,
/// and does not disturb the entries with any one tag.
proof fn lemma_insert_by_tag(s: Seq<Entry>, e: Entry, tag: u16)
    ensures
        in_tag_order(s) ==> in_tag_order(insert_by_tag(s, e)),
        insert_by_tag(s, e).to_multiset() == s.to_multiset().insert(e),
        insert_by_tag(s, e).len() == s.len() + 1,
        in_tag_order(s) ==> with_tag(insert_by_tag(s, e), tag) == with_tag(s.push(e), tag),
    decreases s.len(),
{
    broadcast use vstd::seq_lib::group_to_multiset_ensures;

    let r = insert_by_tag(s, e);
    assert(s.push(e).drop_last() =~= s);
    if s.len() == 0 || s.last().tag <= e.tag {
        if in_tag_order(s) {
            assert forall|i: int, j: int| 0 <= i < j < r.len() implies (#[trigger] r[i]).tag <= (
            #[trigger] r[j]).tag by {
                if j == s.len() {
                    assert(s[i].tag <= s[s.len() - 1].tag);
                }
            }
        }
    } else {
        let front = s.drop_last();
        let inner = insert_by_tag(front, e);
        lemma_insert_by_tag(front, e, tag);
        assert(front.push(s.last()) =~= s);
        assert(inner.push(s.last()).drop_last() =~= inner);
        assert(front.push(e).drop_last() =~= front);
        assert(front.push(e).last() == e && s.push(e).last() == e);
        assert(r.drop_last() =~= inner && r.last() == s.last());
        assert(with_tag(s, tag) == if s.last().tag == tag {
            with_tag(front, tag).push(s.last())
        } else {
            with_tag(front, tag)
        });
        assert(with_tag(front.push(e), tag) == if e.tag == tag {
            with_tag(front, tag).push(e)
        } else {
            with_tag(front, tag)
        });
        if in_tag_order(s) {
            assert(in_tag_order(front)) by {
                assert forall|i: int, j: int| 0 <= i < j < front.len() implies (#[trigger] front[i]).tag
                    <= (#[trigger] front[j]).tag by {
                    assert(s[i].tag <= s[j].tag);
                }
            }
            assert forall|i: int, j: int| 0 <= i < j < r.len() implies (#[trigger] r[i]).tag <= (
            #[trigger] r[j]).tag by {
                if j == inner.len() {
                    assert(inner.to_multiset().contains(inner[i]));
                    if inner[i] != e {
                        assert(front.to_multiset().contains(inner[i]));
                        let k = choose|k: int| 0 <= k < front.len() && front[k] == inner[i];
                        assert(s[k].tag <= s[s.len() - 1].tag);
                    }
                } else {
                    assert(inner[i].tag <= inner[j].tag);
                }
            }
        }
    }
}

/// The entries with a given tag, in their order.
pub open spec fn with_tag(s: Seq<Entry>, tag: u16) -> Seq<Entry>
    decreases s.len(),
{
    if s.len() == 0 {
        Seq::empty()
    } else if s.last().tag == tag {
        with_tag(s.drop_last(), tag).push(s.last())
    } else {
        with_tag(s.drop_last(), tag)
    }
}

/// Sorting gives ascending tags, neither loses nor adds an entry, and keeps the
/// order among the entries of each tag.
pub proof fn law_sort_by_tag(s: Seq<Entry>, tag: u16)
    ensures
        in_tag_order(sort_by_tag(s)),
        sort_by_tag(s).to_multiset() == s.to_multiset(),
        sort_by_tag(s).len() == s.len(),
        with_tag(sort_by_tag(s), tag) == with_tag(s, tag),
    decreases s.len(),
{
    broadcast use vstd::seq_lib::group_to_multiset_ensures;

    if s.len() > 0 {
        let front = sort_by_tag(s.drop_last());
        law_sort_by_tag(s.drop_last(), tag);
        lemma_insert_by_tag(front, s.last(), tag);
        assert(s.drop_last().push(s.last()) =~= s);
        assert(front.push(s.last()).drop_last() =~= front);
    } else {
        assert(s =~= Seq::<Entry>::empty());
    }
}

/// Sorting leaves entries that are in order as they are.
pub proof fn law_sort_of_sorted(s: Seq<Entry>)
    requires
        in_tag_order(s),
    ensures
        sort_by_tag(s) == s,
    decreases s.len(),
{
    if s.len() > 0 {
        let front = s.drop_last();
        assert forall|i: int, j: int| 0 <= i < j < front.len() implies (#[trigger] front[i]).tag
            <= (#[trigger] front[j]).tag by {
            assert(s[i].tag <= s[j].tag);
        }
        law_sort_of_sorted(front);
        if front.len() > 0 {
            assert(s[s.len() - 2].tag <= s[s.len() - 1].tag);
        }
        assert(front.push(s.last()) =~= s);
    } else {
        assert(s =~= Seq::<Entry>::empty());
    }
}

} // verus!
