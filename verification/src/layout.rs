//! What stands where in the output: reading back the planned file.
use vstd::prelude::*;

use crate::bytes::{law_le_value_of_bytes, le_bytes, lemma_le_bytes_len, lemma_le_limits,
    lemma_le_value_bound};
use crate::consolidated::block_count;
use crate::entry::{encode_ifd, lemma_encode_entries, well_formed, ASCII, Entry, LONG8};
use crate::offsets::{encode_numbers, lemma_encode_numbers};
use crate::ome::{put_description, terminated, IMAGE_DESCRIPTION};
use crate::order::{insert_by_tag, law_sort_by_tag, sort_by_tag};
use crate::process::{all_fit, all_well_formed, description_at, lemma_ifds_grow, lemma_images_grow,
    link_position, put_all_entries, put_entries, put_entry, put_ifd, put_ifds, put_image,
    put_images, put_links, put_strips};
use crate::source::Ifd;
use crate::writer::{header_bytes, overwrite, pad, put, put_copy, put_header, put_patch, range_of,
    render, zeros, Out, Piece};

verus! {

/// The file as far as it is written.
pub open spec fn content(source: Seq<u8>, o: Out) -> Seq<u8> {
    render(source, o.pieces)
}

/// The position is the length of the file.
pub open spec fn sound(source: Seq<u8>, o: Out) -> bool {
    content(source, o).len() == o.pos
}

/// `d` is `c` with something behind it.
pub open spec fn prefix(c: Seq<u8>, d: Seq<u8>) -> bool {
    c.len() <= d.len() && forall|i: int| 0 <= i < c.len() ==> #[trigger] d[i] == c[i]
}

/// What was written to `o` is still there in `p`.
pub open spec fn extends(source: Seq<u8>, o: Out, p: Out) -> bool {
    &&& sound(source, o)
    &&& sound(source, p)
    &&& prefix(content(source, o), content(source, p))
}

/// Ranges of a file are still there when something was put behind it.
pub proof fn lemma_prefix_range(c: Seq<u8>, d: Seq<u8>, a: int, b: int)
    requires
        prefix(c, d),
        0 <= a <= b <= c.len(),
    ensures
        d.subrange(a, b) == c.subrange(a, b),
{
    assert(d.subrange(a, b) =~= c.subrange(a, b));
}

/// Appended bytes stand at the end.
pub proof fn lemma_put(source: Seq<u8>, o: Out, bytes: Seq<u8>)
    requires
        sound(source, o),
    ensures
        content(source, put(o, bytes)) == content(source, o) + bytes,
        extends(source, o, put(o, bytes)),
{
    assert(put(o, bytes).pieces.drop_last() =~= o.pieces);
}

/// A copied range stands at the end.
pub proof fn lemma_put_copy(source: Seq<u8>, o: Out, offset: u64, len: u64)
    requires
        sound(source, o),
    ensures
        content(source, put_copy(o, offset, len)) == content(source, o) + range_of(
            source,
            offset as int,
            len as nat,
        ),
        extends(source, o, put_copy(o, offset, len)),
{
    assert(put_copy(o, offset, len).pieces.drop_last() =~= o.pieces);
}

/// A patch changes eight bytes.
pub proof fn lemma_put_patch(source: Seq<u8>, o: Out, position: u64, value: u64)
    ensures
        content(source, put_patch(o, position, value)) == overwrite(
            content(source, o),
            position as int,
            le_bytes(value as nat, 8),
        ),
{
    assert(put_patch(o, position, value).pieces.drop_last() =~= o.pieces);
}

/// Padding leads to a multiple of the alignment.
pub proof fn lemma_pad(source: Seq<u8>, o: Out, alignment: int)
    requires
        sound(source, o),
        alignment == 2 || alignment == 8,
    ensures
        extends(source, o, pad(o, alignment)),
        pad(o, alignment).pos % alignment == 0,
{
    if o.pos % alignment != 0 {
        lemma_put(source, o, zeros((alignment - o.pos % alignment) as nat));
    }
}

/// The header takes sixteen bytes.
pub proof fn lemma_header(source: Seq<u8>)
    ensures
        sound(source, put_header()),
        content(source, put_header()) == header_bytes(),
        header_bytes().len() == 16,
{
    lemma_le_bytes_len(0x4949, 2);
    lemma_le_bytes_len(43, 2);
    lemma_le_bytes_len(8, 2);
    lemma_le_bytes_len(0, 2);
    lemma_le_bytes_len(0, 8);
    assert(put_header().pieces.drop_last() =~= Seq::<Piece>::empty());
    assert(render(source, Seq::<Piece>::empty()) == Seq::<u8>::empty());
    assert(content(source, put_header()) =~= header_bytes());
}

/// `count` bytes of the source from `offset` on stand at `place`.
pub open spec fn copied(
    source: Seq<u8>,
    file: Seq<u8>,
    place: u64,
    offset: u64,
    count: u64,
) -> bool {
    &&& place + count <= file.len()
    &&& file.subrange(place as int, place + count) == range_of(source, offset as int, count as nat)
}

/// Blocks of image data are copied, in order, to even positions.
pub proof fn lemma_strips(source: Seq<u8>, o: Out, offsets: Seq<u64>, counts: Seq<u64>, n: nat)
    requires
        sound(source, o),
        0 <= o.pos,
        put_strips(o, offsets, counts, n).0.pos <= u64::MAX,
    ensures
        ({
            let (p, places) = put_strips(o, offsets, counts, n);
            &&& extends(source, o, p)
            &&& places.len() == n
            &&& forall|j: int|
                0 <= j < n ==> {
                    &&& o.pos <= #[trigger] places[j]
                    &&& places[j] % 2 == 0
                    &&& places[j] + counts[j] <= p.pos
                    &&& copied(source, content(source, p), places[j], offsets[j], counts[j])
                }
        }),
    decreases n,
{
    if n > 0 {
        let (p, places) = put_strips(o, offsets, counts, (n - 1) as nat);
        let q = pad(p, 2);
        let r = put_copy(q, offsets[n - 1], counts[n - 1]);
        lemma_strips(source, o, offsets, counts, (n - 1) as nat);
        lemma_pad(source, p, 2);
        lemma_put_copy(source, q, offsets[n - 1], counts[n - 1]);
        let all = put_strips(o, offsets, counts, n).1;
        let c = content(source, p);
        let d = content(source, r);
        assert(prefix(c, d));
        assert forall|j: int| 0 <= j < n implies {
            &&& o.pos <= #[trigger] all[j]
            &&& all[j] % 2 == 0
            &&& all[j] + counts[j] <= r.pos
            &&& copied(source, d, all[j], offsets[j], counts[j])
        } by {
            if j < n - 1 {
                assert(all[j] == places[j]);
                lemma_prefix_range(c, d, places[j] as int, places[j] + counts[j]);
            } else {
                assert(d.subrange(q.pos, q.pos + counts[j]) =~= range_of(
                    source,
                    offsets[j] as int,
                    counts[j] as nat,
                ));
            }
        }
    }
}

/// A block ends before the next one begins.
pub proof fn lemma_strips_apart(
    source: Seq<u8>,
    o: Out,
    offsets: Seq<u64>,
    counts: Seq<u64>,
    n: nat,
    j: int,
    l: int,
)
    requires
        sound(source, o),
        0 <= o.pos,
        put_strips(o, offsets, counts, n).0.pos <= u64::MAX,
        0 <= j < l < n,
    ensures
        ({
            let places = put_strips(o, offsets, counts, n).1;
            places[j] + counts[j] <= places[l]
        }),
    decreases n,
{
    let m = (n - 1) as nat;
    let (p, front) = put_strips(o, offsets, counts, m);
    let places = put_strips(o, offsets, counts, n).1;
    lemma_strips(source, o, offsets, counts, m);
    assert(places[j] == front[j]);
    if l < n - 1 {
        lemma_strips_apart(source, o, offsets, counts, m, j, l);
        assert(places[l] == front[l]);
    } else {
        assert(front[j] + counts[j] <= p.pos);
    }
}

/// All image data is copied before anything else is written.
#[verifier::spinoff_prover]
#[verifier::rlimit(30)]
pub proof fn lemma_images(source: Seq<u8>, o: Out, ifds: Seq<Ifd>, n: nat)
    requires
        sound(source, o),
        0 <= o.pos,
        n <= ifds.len(),
        put_images(o, ifds, n).0.pos <= u64::MAX,
    ensures
        ({
            let (p, all) = put_images(o, ifds, n);
            &&& extends(source, o, p)
            &&& all.len() == n
            &&& forall|i: int|
                0 <= i < n ==> (#[trigger] all[i]).len() == block_count(
                    ifds[i].offsets,
                    ifds[i].counts,
                )
            &&& forall|i: int, j: int|
                0 <= i < n && 0 <= j < all[i].len() ==> {
                    &&& o.pos <= #[trigger] all[i][j]
                    &&& all[i][j] % 2 == 0
                    &&& all[i][j] + ifds[i].counts[j] <= p.pos
                    &&& copied(
                        source,
                        content(source, p),
                        all[i][j],
                        ifds[i].offsets[j],
                        ifds[i].counts[j],
                    )
                }
        }),
    decreases n,
{
    if n > 0 {
        let (p, front) = put_images(o, ifds, (n - 1) as nat);
        let ifd = ifds[n - 1];
        let m = block_count(ifd.offsets, ifd.counts);
        let (q, places) = put_image(p, ifd);
        lemma_images_grow(o, ifds, (n - 1) as nat, n);
        lemma_images_grow(o, ifds, 0, (n - 1) as nat);
        lemma_images(source, o, ifds, (n - 1) as nat);
        lemma_strips(source, p, ifd.offsets, ifd.counts, m);
        let all = put_images(o, ifds, n).1;
        let c = content(source, p);
        let d = content(source, q);
        assert forall|i: int| 0 <= i < n implies (#[trigger] all[i]).len() == block_count(
            ifds[i].offsets,
            ifds[i].counts,
        ) by {
            if i < n - 1 {
                assert(all[i] == front[i]);
            }
        }
        assert forall|i: int, j: int| 0 <= i < n && 0 <= j < all[i].len() implies {
            &&& o.pos <= #[trigger] all[i][j]
            &&& all[i][j] % 2 == 0
            &&& all[i][j] + ifds[i].counts[j] <= q.pos
            &&& copied(source, d, all[i][j], ifds[i].offsets[j], ifds[i].counts[j])
        } by {
            if i < n - 1 {
                assert(all[i] == front[i]);
                assert(o.pos <= front[i][j]);
                lemma_prefix_range(c, d, front[i][j] as int, front[i][j] + ifds[i].counts[j]);
            } else {
                assert(all[i] == places);
                assert(p.pos <= places[j]);
            }
        }
    }
}

/// Image data of all IFDs stands one block after the other.
#[verifier::spinoff_prover]
pub proof fn lemma_images_apart(
    source: Seq<u8>,
    o: Out,
    ifds: Seq<Ifd>,
    n: nat,
    i: int,
    j: int,
    k: int,
    l: int,
)
    requires
        sound(source, o),
        0 <= o.pos,
        n <= ifds.len(),
        put_images(o, ifds, n).0.pos <= u64::MAX,
        0 <= i <= k < n,
        0 <= j < block_count(ifds[i].offsets, ifds[i].counts),
        0 <= l < block_count(ifds[k].offsets, ifds[k].counts),
        i < k || j < l,
    ensures
        ({
            let all = put_images(o, ifds, n).1;
            all[i][j] + ifds[i].counts[j] <= all[k][l]
        }),
    decreases n,
{
    let m = (n - 1) as nat;
    let (p, front) = put_images(o, ifds, m);
    let ifd = ifds[n - 1];
    let places = put_image(p, ifd).1;
    let all = put_images(o, ifds, n).1;
    let total = block_count(ifd.offsets, ifd.counts);
    lemma_images_grow(o, ifds, m, n);
    lemma_images_grow(o, ifds, 0, m);
    lemma_images(source, o, ifds, m);
    lemma_strips(source, p, ifd.offsets, ifd.counts, total);
    if k < n - 1 {
        lemma_images_apart(source, o, ifds, m, i, j, k, l);
        assert(all[i] == front[i] && all[k] == front[k]);
    } else {
        assert(all[k] == places);
        assert(p.pos <= places[l]);
        if i < k {
            assert(all[i] == front[i]);
            assert(o.pos <= front[i][j]);
        } else {
            lemma_strips_apart(source, p, ifd.offsets, ifd.counts, total, j, l);
        }
    }
}

/// The value that the new form of an entry has to have.
pub open spec fn new_value(source: Seq<u8>, e: Entry, places: Seq<u64>) -> Seq<u8> {
    if e.locates() {
        encode_numbers(places)
    } else if e.inline() {
        e.value.take(e.size() as int)
    } else {
        range_of(source, e.offset() as int, e.size())
    }
}

/// The entry has the value `v` in a file, inside the entry or in the range
/// `lo..hi` of the file, from a position divisible by 8 on.
pub open spec fn stored(file: Seq<u8>, e: Entry, v: Seq<u8>, lo: int, hi: int) -> bool {
    &&& e.value.len() == 8
    &&& e.size() == v.len() <= u64::MAX
    &&& if e.inline() {
        e.value.take(e.size() as int) == v
    } else {
        &&& e.offset() % 8 == 0
        &&& lo <= e.offset()
        &&& e.offset() + e.size() <= hi <= file.len()
        &&& file.subrange(e.offset() as int, (e.offset() + e.size()) as int) == v
    }
}

/// `made` is the new form of `e`.
pub open spec fn renewed(e: Entry, made: Entry, places: Seq<u64>) -> bool {
    &&& made.tag == e.tag
    &&& made.typ == if e.locates() {
        LONG8
    } else {
        e.typ
    }
    &&& made.count == if e.locates() {
        places.len() as u64
    } else {
        e.count
    }
    &&& e.locates() ==> places.len() <= u64::MAX
    &&& e.locates() && places.len() == 0 ==> made.value == zeros(8)
    &&& !e.locates() && e.inline() ==> made.value == e.value
}

/// A value stays where it is when its range of the file does.
pub proof fn lemma_stored_same(c: Seq<u8>, d: Seq<u8>, e: Entry, v: Seq<u8>, lo: int, hi: int)
    requires
        stored(c, e, v, lo, hi),
        0 <= lo,
        hi <= c.len(),
        hi <= d.len(),
        forall|k: int| lo <= k < hi ==> #[trigger] d[k] == c[k],
    ensures
        stored(d, e, v, lo, hi),
{
    if !e.inline() {
        let a = e.offset() as int;
        let b = (e.offset() + e.size()) as int;
        assert(d.subrange(a, b) =~= c.subrange(a, b));
    }
}

/// The new form of an entry has the value that it has to have.
#[verifier::spinoff_prover]
#[verifier::rlimit(30)]
pub proof fn lemma_entry(source: Seq<u8>, o: Out, e: Entry, places: Seq<u64>)
    requires
        sound(source, o),
        0 <= o.pos,
        e.value.len() == 8,
        e.fits(),
        put_entry(o, e, places).0.pos <= u64::MAX,
    ensures
        ({
            let (p, made) = put_entry(o, e, places);
            &&& extends(source, o, p)
            &&& renewed(e, made, places)
            &&& stored(content(source, p), made, new_value(source, e, places), o.pos, p.pos)
        }),
{
    let (p, made) = put_entry(o, e, places);
    let q = pad(o, 8);
    lemma_pad(source, o, 8);
    lemma_le_bytes_len(q.pos as nat, 8);
    lemma_le_limits();
    if e.locates() {
        let data = encode_numbers(places);
        lemma_encode_numbers(places);
        if data.len() <= 8 {
            assert(made.value.take(made.size() as int) =~= data);
            if places.len() == 0 {
                assert(made.value =~= zeros(8));
            }
        } else {
            lemma_put(source, q, data);
            law_le_value_of_bytes(q.pos as nat, 8);
            assert(content(source, p).subrange(q.pos, q.pos + data.len()) =~= data);
        }
    } else if !e.inline() {
        lemma_put_copy(source, q, e.offset() as u64, e.size() as u64);
        law_le_value_of_bytes(q.pos as nat, 8);
        lemma_le_value_bound(e.value);
        assert(content(source, p).subrange(q.pos, q.pos + e.size()) =~= range_of(
            source,
            e.offset() as int,
            e.size(),
        ));
    }
}

/// The new forms of entries have the values that they have to have.
pub proof fn lemma_entries(
    source: Seq<u8>,
    o: Out,
    entries: Seq<Entry>,
    places: Seq<u64>,
    n: nat,
)
    requires
        sound(source, o),
        0 <= o.pos,
        n <= entries.len(),
        well_formed(entries),
        forall|j: int| 0 <= j < entries.len() ==> (#[trigger] entries[j]).fits(),
        put_entries(o, entries, places, n).0.pos <= u64::MAX,
    ensures
        ({
            let (p, made) = put_entries(o, entries, places, n);
            &&& extends(source, o, p)
            &&& made.len() == n
            &&& forall|j: int|
                0 <= j < n ==> {
                    &&& renewed(entries[j], #[trigger] made[j], places)
                    &&& stored(
                        content(source, p),
                        made[j],
                        new_value(source, entries[j], places),
                        o.pos,
                        p.pos,
                    )
                }
        }),
    decreases n,
{
    if n > 0 {
        let (p, front) = put_entries(o, entries, places, (n - 1) as nat);
        let (q, last) = put_entry(p, entries[n - 1], places);
        lemma_entries(source, o, entries, places, (n - 1) as nat);
        lemma_entry(source, p, entries[n - 1], places);
        let made = put_entries(o, entries, places, n).1;
        assert forall|j: int| 0 <= j < n implies {
            &&& renewed(entries[j], #[trigger] made[j], places)
            &&& stored(
                content(source, q),
                made[j],
                new_value(source, entries[j], places),
                o.pos,
                q.pos,
            )
        } by {
            if j < n - 1 {
                assert(made[j] == front[j]);
                lemma_stored_same(
                    content(source, p),
                    content(source, q),
                    front[j],
                    new_value(source, entries[j], places),
                    o.pos,
                    p.pos,
                );
            }
        }
    }
}

/// The entry of a description has the text as its value.
pub proof fn lemma_description(source: Seq<u8>, o: Out, text: Seq<char>)
    requires
        sound(source, o),
        0 <= o.pos,
        put_description(o, text).0.pos <= u64::MAX,
    ensures
        ({
            let (p, e) = put_description(o, text);
            &&& extends(source, o, p)
            &&& e.tag == IMAGE_DESCRIPTION
            &&& e.typ == ASCII
            &&& e.count == terminated(text).len()
            &&& stored(content(source, p), e, terminated(text), o.pos, p.pos)
        }),
{
    let data = terminated(text);
    let (p, e) = put_description(o, text);
    let q = pad(o, 8);
    lemma_pad(source, o, 8);
    lemma_le_bytes_len(q.pos as nat, 8);
    lemma_le_limits();
    if data.len() <= 8 {
        assert(e.value.take(e.size() as int) =~= data);
    } else {
        lemma_put(source, q, data);
        law_le_value_of_bytes(q.pos as nat, 8);
        assert(content(source, p).subrange(q.pos, q.pos + data.len()) =~= data);
    }
}

/// The entry describes the image with `text`.
pub open spec fn describes(e: Entry, text: Seq<char>) -> bool {
    e.tag == IMAGE_DESCRIPTION && e.typ == ASCII && e.count == terminated(text).len()
}

/// `made` are the new entries of an IFD, one for each old one, and one more for a
/// description; their values stand in `lo..hi` of the file.
pub open spec fn carried(
    source: Seq<u8>,
    file: Seq<u8>,
    ifd: Ifd,
    places: Seq<u64>,
    description: Option<Seq<char>>,
    made: Seq<Entry>,
    lo: int,
    hi: int,
) -> bool {
    &&& made.len() == ifd.entries.len() + if description is Some {
        1int
    } else {
        0
    }
    &&& forall|j: int|
        0 <= j < ifd.entries.len() ==> {
            &&& renewed(ifd.entries[j], #[trigger] made[j], places)
            &&& stored(file, made[j], new_value(source, ifd.entries[j], places), lo, hi)
        }
    &&& description matches Some(text) ==> {
        &&& describes(made[ifd.entries.len() as int], text)
        &&& stored(file, made[ifd.entries.len() as int], terminated(text), lo, hi)
    }
}

/// Entries stay as they are when their range of the file does.
pub proof fn lemma_carried_same(
    source: Seq<u8>,
    c: Seq<u8>,
    d: Seq<u8>,
    ifd: Ifd,
    places: Seq<u64>,
    description: Option<Seq<char>>,
    made: Seq<Entry>,
    lo: int,
    hi: int,
    wider: int,
)
    requires
        carried(source, c, ifd, places, description, made, lo, hi),
        0 <= lo,
        hi <= wider,
        hi <= c.len(),
        wider <= d.len(),
        forall|k: int| lo <= k < hi ==> #[trigger] d[k] == c[k],
    ensures
        carried(source, d, ifd, places, description, made, lo, wider),
{
    assert forall|j: int| 0 <= j < ifd.entries.len() implies {
        &&& renewed(ifd.entries[j], #[trigger] made[j], places)
        &&& stored(d, made[j], new_value(source, ifd.entries[j], places), lo, wider)
    } by {
        lemma_stored_same(c, d, made[j], new_value(source, ifd.entries[j], places), lo, hi);
    }
    if let Some(text) = description {
        lemma_stored_same(c, d, made[ifd.entries.len() as int], terminated(text), lo, hi);
    }
}

/// All entries of an IFD are carried over.
#[verifier::spinoff_prover]
#[verifier::rlimit(30)]
pub proof fn lemma_all_entries(
    source: Seq<u8>,
    o: Out,
    ifd: Ifd,
    places: Seq<u64>,
    description: Option<Seq<char>>,
)
    requires
        sound(source, o),
        0 <= o.pos,
        well_formed(ifd.entries),
        forall|j: int| 0 <= j < ifd.entries.len() ==> (#[trigger] ifd.entries[j]).fits(),
        put_all_entries(o, ifd, places, description).0.pos <= u64::MAX,
    ensures
        ({
            let (p, made) = put_all_entries(o, ifd, places, description);
            &&& extends(source, o, p)
            &&& well_formed(made)
            &&& carried(
                source,
                content(source, p),
                ifd,
                places,
                description,
                made,
                o.pos,
                p.pos,
            )
        }),
{
    let n = ifd.entries.len();
    let (p, front) = put_entries(o, ifd.entries, places, n);
    let (q, made) = put_all_entries(o, ifd, places, description);
    lemma_entries(source, o, ifd.entries, places, n);
    assert forall|j: int| 0 <= j < n implies {
        &&& renewed(ifd.entries[j], #[trigger] made[j], places)
        &&& stored(
            content(source, p),
            made[j],
            new_value(source, ifd.entries[j], places),
            o.pos,
            p.pos,
        )
    } by {
        assert(made[j] == front[j]);
    }
    if let Some(text) = description {
        lemma_description(source, p, text);
        assert(carried(source, content(source, p), ifd, places, None, front, o.pos, p.pos));
        lemma_carried_same(
            source,
            content(source, p),
            content(source, q),
            ifd,
            places,
            None,
            front,
            o.pos,
            p.pos,
            q.pos,
        );
        assert forall|j: int| 0 <= j < n implies {
            &&& renewed(ifd.entries[j], #[trigger] made[j], places)
            &&& stored(
                content(source, q),
                made[j],
                new_value(source, ifd.entries[j], places),
                o.pos,
                q.pos,
            )
        } by {
            assert(made[j] == front[j]);
        }
        assert(made[n as int] == put_description(p, text).1);
    }
}

/// Sorting keeps the widths of the value fields.
proof fn lemma_insert_well_formed(s: Seq<Entry>, e: Entry)
    requires
        well_formed(s),
        e.value.len() == 8,
    ensures
        well_formed(insert_by_tag(s, e)),
    decreases s.len(),
{
    if s.len() > 0 && s.last().tag > e.tag {
        let front = s.drop_last();
        assert forall|i: int| 0 <= i < front.len() implies (#[trigger] front[i]).value.len()
            == 8 by {
            assert(front[i] == s[i]);
        }
        lemma_insert_well_formed(front, e);
    }
}

/// Sorting keeps the widths of the value fields.
pub proof fn lemma_sort_well_formed(s: Seq<Entry>)
    requires
        well_formed(s),
    ensures
        well_formed(sort_by_tag(s)),
        sort_by_tag(s).len() == s.len(),
    decreases s.len(),
{
    law_sort_by_tag(s, 0);
    if s.len() > 0 {
        let front = s.drop_last();
        assert forall|i: int| 0 <= i < front.len() implies (#[trigger] front[i]).value.len()
            == 8 by {
            assert(front[i] == s[i]);
        }
        lemma_sort_well_formed(front);
        lemma_insert_well_formed(sort_by_tag(front), s.last());
    }
}

/// A new IFD stands in the file at the place that `info` gives, with as many
/// entries as `info` says, their values before it and a link to `link`.
pub open spec fn stands(
    source: Seq<u8>,
    file: Seq<u8>,
    before: Out,
    ifd: Ifd,
    places: Seq<u64>,
    description: Option<Seq<char>>,
    info: (u64, u64),
    link: u64,
) -> bool {
    let made = put_all_entries(before, ifd, places, description).1;
    let entries = sort_by_tag(made);
    &&& before.pos <= info.0
    &&& info.0 % 8 == 0
    &&& info.1 == entries.len()
    &&& well_formed(entries)
    &&& link_position(info) + 8 <= file.len()
    &&& file.subrange(info.0 as int, link_position(info) + 8) == encode_ifd(entries, link as nat)
    &&& carried(source, file, ifd, places, description, made, before.pos, info.0 as int)
}

/// An IFD is written with its values before it.
#[verifier::spinoff_prover]
#[verifier::rlimit(30)]
pub proof fn lemma_ifd(
    source: Seq<u8>,
    o: Out,
    ifd: Ifd,
    places: Seq<u64>,
    description: Option<Seq<char>>,
)
    requires
        sound(source, o),
        0 <= o.pos,
        well_formed(ifd.entries),
        forall|j: int| 0 <= j < ifd.entries.len() ==> (#[trigger] ifd.entries[j]).fits(),
        put_ifd(o, ifd, places, description).0.pos <= u64::MAX,
    ensures
        ({
            let (p, offset, entries) = put_ifd(o, ifd, places, description);
            let info = (offset, entries.len() as u64);
            &&& extends(source, o, p)
            &&& stands(
                source,
                content(source, p),
                o,
                ifd,
                places,
                description,
                info,
                0,
            )
            &&& link_position(info) + 8 == p.pos
        }),
{
    let (p, made) = put_all_entries(o, ifd, places, description);
    let q = pad(p, 8);
    let (r, offset, entries) = put_ifd(o, ifd, places, description);
    lemma_le_bytes_len(entries.len(), 8);
    lemma_le_bytes_len(0, 8);
    lemma_all_entries(source, o, ifd, places, description);
    lemma_sort_well_formed(made);
    lemma_encode_entries(entries);
    lemma_pad(source, p, 8);
    lemma_put(source, q, encode_ifd(entries, 0));
    lemma_carried_same(
        source,
        content(source, p),
        content(source, r),
        ifd,
        places,
        description,
        made,
        o.pos,
        p.pos,
        q.pos,
    );
    assert(content(source, r).subrange(q.pos, r.pos) =~= encode_ifd(entries, 0));
}

/// An IFD that stands in a file still stands there when the file is the same
/// up to the end of the IFD.
pub proof fn lemma_stands_prefix(
    source: Seq<u8>,
    c: Seq<u8>,
    d: Seq<u8>,
    before: Out,
    ifd: Ifd,
    places: Seq<u64>,
    description: Option<Seq<char>>,
    info: (u64, u64),
    link: u64,
)
    requires
        0 <= before.pos,
        stands(source, c, before, ifd, places, description, info, link),
        prefix(c, d),
    ensures
        stands(source, d, before, ifd, places, description, info, link),
{
    let made = put_all_entries(before, ifd, places, description).1;
    lemma_prefix_range(c, d, info.0 as int, link_position(info) + 8);
    lemma_carried_same(
        source,
        c,
        d,
        ifd,
        places,
        description,
        made,
        before.pos,
        info.0 as int,
        info.0 as int,
    );
}

/// The IFD at index `i` stands in the file behind those before it, with no link
/// yet.
pub open spec fn in_chain(
    source: Seq<u8>,
    file: Seq<u8>,
    o: Out,
    ifds: Seq<Ifd>,
    all: Seq<Seq<u64>>,
    description: Option<Seq<char>>,
    info: (u64, u64),
    i: int,
) -> bool {
    let before = put_ifds(o, ifds, all, description, i as nat).0;
    let after = put_ifds(o, ifds, all, description, (i + 1) as nat).0;
    &&& o.pos <= before.pos
    &&& link_position(info) + 8 == after.pos
    &&& stands(
        source,
        file,
        before,
        ifds[i],
        all[i],
        description_at(description, i),
        info,
        0,
    )
}

/// The IFDs stand one after the other.
#[verifier::spinoff_prover]
#[verifier::rlimit(30)]
pub proof fn lemma_ifds(
    source: Seq<u8>,
    o: Out,
    ifds: Seq<Ifd>,
    all: Seq<Seq<u64>>,
    description: Option<Seq<char>>,
    n: nat,
)
    requires
        sound(source, o),
        0 <= o.pos,
        n <= ifds.len(),
        n <= all.len(),
        all_fit(ifds),
        all_well_formed(ifds),
        put_ifds(o, ifds, all, description, n).0.pos <= u64::MAX,
    ensures
        ({
            let (p, infos) = put_ifds(o, ifds, all, description, n);
            &&& extends(source, o, p)
            &&& infos.len() == n
            &&& forall|i: int|
                0 <= i < n ==> in_chain(
                    source,
                    content(source, p),
                    o,
                    ifds,
                    all,
                    description,
                    #[trigger] infos[i],
                    i,
                )
        }),
    decreases n,
{
    if n > 0 {
        let m = (n - 1) as nat;
        let (p, front) = put_ifds(o, ifds, all, description, m);
        let (q, infos) = put_ifds(o, ifds, all, description, n);
        let ifd = ifds[n - 1];
        lemma_ifds_grow(o, ifds, all, description, m, n);
        lemma_ifds_grow(o, ifds, all, description, 0, m);
        lemma_ifds(source, o, ifds, all, description, m);
        assert forall|j: int| 0 <= j < ifd.entries.len() implies (
        #[trigger] ifd.entries[j]).fits() by {
            assert(ifds[n - 1].entries[j].fits());
        }
        lemma_ifd(source, p, ifd, all[n - 1], description_at(description, n - 1));
        assert forall|i: int| 0 <= i < n implies in_chain(
            source,
            content(source, q),
            o,
            ifds,
            all,
            description,
            #[trigger] infos[i],
            i,
        ) by {
            if i < n - 1 {
                assert(infos[i] == front[i]);
                lemma_stands_prefix(
                    source,
                    content(source, p),
                    content(source, q),
                    put_ifds(o, ifds, all, description, i as nat).0,
                    ifds[i],
                    all[i],
                    description_at(description, i),
                    infos[i],
                    0,
                );
            }
        }
    }
}

/// Every IFD ends before the next one begins.
pub open spec fn apart(infos: Seq<(u64, u64)>) -> bool {
    forall|i: int, j: int|
        0 <= i < j < infos.len() ==> link_position(#[trigger] infos[i]) + 8 <= (
        #[trigger] infos[j]).0
}

/// Whether a byte belongs to one of the first `n` links.
pub open spec fn in_links(infos: Seq<(u64, u64)>, n: nat, k: int) -> bool {
    exists|i: int|
        0 <= i < n && link_position(#[trigger] infos[i]) <= k < link_position(infos[i]) + 8
}

/// Linking the IFDs changes their links and nothing else.
#[verifier::spinoff_prover]
#[verifier::rlimit(30)]
pub proof fn lemma_links(source: Seq<u8>, o: Out, infos: Seq<(u64, u64)>, n: nat)
    requires
        n < infos.len(),
        apart(infos),
        forall|i: int|
            0 <= i < infos.len() ==> link_position(#[trigger] infos[i]) + 8 <= content(
                source,
                o,
            ).len() <= u64::MAX,
    ensures
        ({
            let c = content(source, o);
            let d = content(source, put_links(o, infos, n));
            &&& d.len() == c.len()
            &&& forall|k: int|
                0 <= k < c.len() && !in_links(infos, n, k) ==> #[trigger] d[k] == c[k]
            &&& forall|i: int|
                0 <= i < n ==> d.subrange(
                    link_position(#[trigger] infos[i]),
                    link_position(infos[i]) + 8,
                ) == le_bytes(infos[i + 1].0 as nat, 8)
        }),
    decreases n,
{
    if n > 0 {
        let m = (n - 1) as nat;
        let c = content(source, o);
        let p = put_links(o, infos, m);
        let d = content(source, p);
        let e = content(source, put_links(o, infos, n));
        let at = link_position(infos[n - 1]);
        let bytes = le_bytes(infos[n as int].0 as nat, 8);
        lemma_links(source, o, infos, m);
        lemma_le_bytes_len(infos[n as int].0 as nat, 8);
        lemma_put_patch(source, p, at as u64, infos[n as int].0);
        assert(e == overwrite(d, at, bytes));
        assert forall|k: int| 0 <= k < c.len() && !in_links(infos, n, k) implies #[trigger] e[k]
            == c[k] by {
            assert(!(at <= k < at + 8)) by {
                assert(infos[n - 1] == infos[n - 1]);
            }
            assert(!in_links(infos, m, k));
        }
        assert forall|i: int| 0 <= i < n implies e.subrange(
            link_position(#[trigger] infos[i]),
            link_position(infos[i]) + 8,
        ) == le_bytes(infos[i + 1].0 as nat, 8) by {
            let b = link_position(infos[i]);
            if i < n - 1 {
                assert(link_position(infos[i]) + 8 <= infos[n - 1].0);
                assert(e.subrange(b, b + 8) =~= d.subrange(b, b + 8));
            } else {
                assert(e.subrange(b, b + 8) =~= bytes);
            }
        }
    }
}

} // verus!
