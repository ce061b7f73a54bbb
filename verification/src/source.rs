//! Surveying the input: its IFDs, where their image data stands, and what is to
//! be kept of them.
use vstd::prelude::*;

use crate::entry::{entry_views, well_formed, Entry, IfdEntry};
use crate::error::Error;
use crate::metadata::{extract_metadata, metadata_of, name_of, tag_name, Metadata};
use crate::ome::{dimensions, extract_image_dimensions, generate_ome_xml, ome_xml};
use crate::reader::{blocks, first_ifd, get_offsets_and_counts, ifd_at, lemma_ifd_well_formed, whole,
    BigTiffReader, Extent};

verus! {

/// What the output is to be.
#[derive(Clone, Copy, Debug, PartialEq, Eq, Structural)]
pub enum Mode {
    /// All data, with the IFDs at the end.
    Consolidate,
    /// The same without metadata.
    Plain,
    /// The same without metadata, but with an OME-XML description.
    Ome,
}

/// Whether a tag is essential for the structure of the image.
pub open spec fn is_essential(tag: u16) -> bool {
    256 <= tag <= 259 || tag == 262 || tag == 273 || 277 <= tag <= 279 || 282 <= tag <= 284 || tag
        == 296 || 322 <= tag <= 325 || tag == 339
}

/// Whether an entry survives where metadata is stripped.
pub open spec fn is_kept(e: Entry) -> bool {
    is_essential(e.tag) && name_of(e.tag) is None
}

/// The entries that survive where metadata is stripped.
pub open spec fn stripped(entries: Seq<Entry>) -> Seq<Entry>
    decreases entries.len(),
{
    if entries.len() == 0 {
        Seq::empty()
    } else if is_kept(entries.last()) {
        stripped(entries.drop_last()).push(entries.last())
    } else {
        stripped(entries.drop_last())
    }
}

/// The entries that the output keeps.
pub open spec fn kept_entries(entries: Seq<Entry>, mode: Mode) -> Seq<Entry> {
    if mode == Mode::Consolidate {
        entries
    } else {
        stripped(entries)
    }
}

/// Whether a tag is essential for the structure of the image.
pub fn keeps_tag(tag: u16) -> (r: bool)
    ensures
        r == is_essential(tag),
{
    match tag {
        256 | 257 | 258 | 259 | 262 | 273 | 277 | 278 | 279 => true,
        282 | 283 | 284 | 296 | 322 | 323 | 324 | 325 | 339 => true,
        _ => false,
    }
}

/// The entries that the output keeps.
pub fn filter_entries(entries: Vec<IfdEntry>, mode: Mode) -> (r: Vec<IfdEntry>)
    ensures
        entry_views(r@) == kept_entries(entry_views(entries@), mode),
{
    if mode == Mode::Consolidate {
        return entries;
    }
    let ghost views = entry_views(entries@);
    let mut r: Vec<IfdEntry> = Vec::new();
    let mut i: usize = 0;
    assert(entry_views(r@) =~= stripped(views.take(0)));
    while i < entries.len()
        invariant
            i <= entries@.len(),
            views == entry_views(entries@),
            entry_views(r@) == stripped(views.take(i as int)),
        decreases entries@.len() - i,
    {
        let ghost before = r@;
        let entry: IfdEntry = entries[i];
        if keeps_tag(entry.tag) && tag_name(entry.tag).is_none() {
            r.push(entry);
            assert(entry_views(r@) =~= entry_views(before).push(entry@));
        }
        i = i + 1;
        assert(views.take(i as int).drop_last() =~= views.take(i - 1));
        assert(views.take(i as int).last() == entry@);
    }
    assert(views.take(i as int) =~= views);
    r
}

/// What the output needs to know of an IFD of the input.
pub struct SourceIfd {
    /// The entries to keep.
    pub entries: Vec<IfdEntry>,
    /// Places of the image data.
    pub offsets: Vec<u64>,
    /// Sizes of the image data.
    pub counts: Vec<u64>,
}

/// The mathematical content of a `SourceIfd`.
#[verifier::ext_equal]
pub struct Ifd {
    pub entries: Seq<Entry>,
    pub offsets: Seq<u64>,
    pub counts: Seq<u64>,
}

impl View for SourceIfd {
    type V = Ifd;

    open spec fn view(&self) -> Ifd {
        Ifd { entries: entry_views(self.entries@), offsets: self.offsets@, counts: self.counts@ }
    }
}

/// The contents of a list of IFDs.
pub open spec fn ifd_views(ifds: Seq<SourceIfd>) -> Seq<Ifd> {
    ifds.map_values(|i: SourceIfd| i@)
}

/// The survey of an input file.
pub struct Survey {
    pub mode: Mode,
    /// Place of the IFD to read next, once the header was read; zero at the end
    /// of the chain.
    pub next_ifd: Option<u64>,
    pub ifds: Vec<SourceIfd>,
    /// Metadata of the IFDs, where the mode strips it.
    pub metadata: Vec<Metadata>,
    /// Width, height and bits per sample, from the first IFD.
    pub image_dims: Option<(u32, u32, u16)>,
}

/// The mathematical content of a survey.
#[verifier::ext_equal]
pub struct SurveyState {
    pub mode: Mode,
    pub next: Option<u64>,
    pub ifds: Seq<Ifd>,
    pub metadata: Seq<Map<u16, Seq<char>>>,
    pub dims: Option<(u32, u32, u16)>,
}

impl View for Survey {
    type V = SurveyState;

    open spec fn view(&self) -> SurveyState {
        SurveyState {
            mode: self.mode,
            next: self.next_ifd,
            ifds: ifd_views(self.ifds@),
            metadata: self.metadata@.map_values(|m: Metadata| m@),
            dims: self.image_dims,
        }
    }
}

/// A survey before its first step.
pub open spec fn survey_start(mode: Mode) -> SurveyState {
    SurveyState { mode, next: None, ifds: Seq::empty(), metadata: Seq::empty(), dims: None }
}

/// A survey that has taken in the IFD at its current place.
pub open spec fn add_ifd(
    s: SurveyState,
    entries: Seq<Entry>,
    next: u64,
    offsets: Seq<u64>,
    counts: Seq<u64>,
    metadata: Map<u16, Seq<char>>,
) -> SurveyState {
    SurveyState {
        mode: s.mode,
        next: Some(next),
        ifds: s.ifds.push(Ifd { entries: kept_entries(entries, s.mode), offsets, counts }),
        metadata: if s.mode == Mode::Consolidate {
            s.metadata
        } else {
            s.metadata.push(metadata)
        },
        dims: if s.dims is None {
            Some(dimensions(entries))
        } else {
            s.dims
        },
    }
}

/// One step of a survey: reads the header, or takes in one IFD. `None` at the
/// end of the chain.
pub open spec fn survey_step(s: SurveyState, store: Seq<Extent>) -> Result<
    Option<SurveyState>,
    Error,
> {
    match s.next {
        None => match first_ifd(store) {
            Err(e) => Err(e),
            Ok(offset) => Ok(Some(SurveyState { next: Some(offset), ..s })),
        },
        Some(offset) => if offset == 0 {
            Ok(None)
        } else {
            match ifd_at(store, offset) {
                Err(e) => Err(e),
                Ok((entries, next)) => match blocks(store, entries) {
                    Err(e) => Err(e),
                    Ok((offsets, counts)) => if s.mode == Mode::Consolidate {
                        Ok(Some(add_ifd(s, entries, next, offsets, counts, Map::empty())))
                    } else {
                        match metadata_of(store, entries) {
                            Err(e) => Err(e),
                            Ok(m) => Ok(Some(add_ifd(s, entries, next, offsets, counts, m))),
                        }
                    },
                },
            }
        },
    }
}

/// The dimensions that a survey found.
pub open spec fn found_dims(s: SurveyState) -> (u32, u32, u16) {
    match s.dims {
        Some(d) => d,
        None => (0, 0, 16),
    }
}

/// The description that the output gets.
pub open spec fn description_of(s: SurveyState) -> Option<Seq<char>> {
    if s.mode == Mode::Ome {
        Some(ome_xml(found_dims(s).0, found_dims(s).1, s.ifds.len() as u64, found_dims(s).2))
    } else {
        None
    }
}

/// `m` is the largest of all sizes of image data, or zero where there are none.
pub open spec fn is_largest_count(ifds: Seq<Ifd>, m: u64) -> bool {
    &&& forall|i: int, j: int|
        0 <= i < ifds.len() && 0 <= j < ifds[i].counts.len() ==> #[trigger] ifds[i].counts[j] <= m
    &&& m == 0 || exists|i: int, j: int|
        0 <= i < ifds.len() && 0 <= j < ifds[i].counts.len() && #[trigger] ifds[i].counts[j] == m
}

/// The places and sizes of the image data of an IFD are those that its entries
/// give.
pub open spec fn read_from(file: Seq<u8>, ifd: Ifd) -> bool {
    blocks(whole(file), ifd.entries) == Ok::<(Seq<u64>, Seq<u64>), Error>(
        (ifd.offsets, ifd.counts),
    )
}

/// Stripping metadata leaves the entries that locate and measure image data.
pub proof fn law_strip_keeps_blocks(store: Seq<Extent>, entries: Seq<Entry>, mode: Mode)
    ensures
        blocks(store, kept_entries(entries, mode)) == blocks(store, entries),
    decreases entries.len(),
{
    if mode != Mode::Consolidate && entries.len() > 0 {
        let front = entries.drop_last();
        law_strip_keeps_blocks(store, front, mode);
        let kept = stripped(front);
        assert(kept.push(entries.last()).drop_last() =~= kept);
    }
}

/// Where metadata is stripped, exactly the essential entries without a metadata
/// name are left, in the same order.
pub proof fn law_strip(entries: Seq<Entry>)
    ensures
        stripped(entries) == entries.filter(|e: Entry| is_kept(e)),
        forall|e: Entry| #[trigger]
            stripped(entries).contains(e) <==> entries.contains(e) && is_essential(e.tag)
                && name_of(e.tag) is None,
    decreases entries.len(),
{
    reveal(Seq::filter);
    if entries.len() > 0 {
        let front = entries.drop_last();
        let last = entries.last();
        law_strip(front);
        assert forall|e: Entry| #[trigger]
            stripped(entries).contains(e) <==> entries.contains(e) && is_essential(e.tag)
                && name_of(e.tag) is None by {
            assert(entries =~= front.push(last));
            let kept = stripped(front);
            assert(front.push(last).contains(e) <==> front.contains(e) || e == last) by {
                broadcast use vstd::seq_lib::group_seq_properties;

            }
            assert(kept.push(last).contains(e) <==> kept.contains(e) || e == last) by {
                broadcast use vstd::seq_lib::group_seq_properties;

            }
            assert(stripped(front).contains(e) <==> front.contains(e) && is_essential(e.tag)
                && name_of(e.tag) is None);
        }
    }
}

/// At most `n` steps of a survey over the same bytes.
pub open spec fn survey_run(s: SurveyState, store: Seq<Extent>, n: nat) -> Result<
    SurveyState,
    Error,
>
    decreases n,
{
    if n == 0 {
        Ok(s)
    } else {
        match survey_step(s, store) {
            Err(e) => Err(e),
            Ok(None) => Ok(s),
            Ok(Some(t)) => survey_run(t, store, (n - 1) as nat),
        }
    }
}

/// What a survey of a file knows of an IFD: the places and sizes of its image
/// data are those that the entries give, and nothing is kept that the mode does
/// not keep.
pub open spec fn taken_from(file: Seq<u8>, mode: Mode, ifd: Ifd) -> bool {
    &&& read_from(file, ifd)
    &&& well_formed(ifd.entries)
    &&& mode != Mode::Consolidate ==> forall|e: Entry| #[trigger]
        ifd.entries.contains(e) ==> is_kept(e)
}

/// Stripping keeps the widths of the value fields.
proof fn lemma_kept_well_formed(entries: Seq<Entry>, mode: Mode)
    requires
        well_formed(entries),
    ensures
        well_formed(kept_entries(entries, mode)),
    decreases entries.len(),
{
    if mode != Mode::Consolidate && entries.len() > 0 {
        let front = entries.drop_last();
        assert forall|i: int| 0 <= i < front.len() implies (#[trigger] front[i]).value.len()
            == 8 by {
            assert(front[i] == entries[i]);
        }
        assert(entries.last() == entries[entries.len() - 1]);
        lemma_kept_well_formed(front, mode);
    }
}

/// A step of a survey keeps what is known of the IFDs true.
proof fn lemma_survey_step(file: Seq<u8>, s: SurveyState)
    requires
        forall|i: int| 0 <= i < s.ifds.len() ==> taken_from(file, s.mode, #[trigger] s.ifds[i]),
    ensures
        survey_step(s, whole(file)) matches Ok(Some(t)) ==> t.mode == s.mode && forall|i: int|
            0 <= i < t.ifds.len() ==> taken_from(file, t.mode, #[trigger] t.ifds[i]),
{
    let store = whole(file);
    match (s.next, survey_step(s, store)) {
        (Some(offset), Ok(Some(t))) => {
            if let Ok((entries, next)) = ifd_at(store, offset) {
                law_strip_keeps_blocks(store, entries, s.mode);
                law_strip(entries);
                lemma_ifd_well_formed(store, offset);
                lemma_kept_well_formed(entries, s.mode);
                let ifd = t.ifds[t.ifds.len() - 1];
                assert(taken_from(file, s.mode, ifd));
                assert forall|i: int| 0 <= i < t.ifds.len() implies taken_from(
                    file,
                    t.mode,
                    #[trigger] t.ifds[i],
                ) by {
                    if i < s.ifds.len() {
                        assert(t.ifds[i] == s.ifds[i]);
                    }
                }
            }
        },
        _ => {},
    }
}

/// Whatever a survey of a file has found so far is what the file says.
pub proof fn law_survey(file: Seq<u8>, s: SurveyState, n: nat)
    requires
        forall|i: int| 0 <= i < s.ifds.len() ==> taken_from(file, s.mode, #[trigger] s.ifds[i]),
    ensures
        survey_run(s, whole(file), n) matches Ok(t) ==> t.mode == s.mode && forall|i: int|
            0 <= i < t.ifds.len() ==> taken_from(file, t.mode, #[trigger] t.ifds[i]),
    decreases n,
{
    if n > 0 {
        lemma_survey_step(file, s);
        if let Ok(Some(t)) = survey_step(s, whole(file)) {
            law_survey(file, t, (n - 1) as nat);
        }
    }
}

impl Survey {
    /// A survey that has seen nothing.
    pub fn new(mode: Mode) -> (r: Survey)
        ensures
            r@ == survey_start(mode),
    {
        let r = Survey {
            mode,
            next_ifd: None,
            ifds: Vec::new(),
            metadata: Vec::new(),
            image_dims: None,
        };
        assert(r@ =~= survey_start(mode));
        r
    }

    /// Takes the survey one step further with the bytes that the reader has;
    /// says whether the end of the chain is reached. Where the step needs more
    /// bytes it asks for them, and can be taken again.
    pub fn step(&mut self, reader: &BigTiffReader) -> (r: Result<bool, Error>)
        ensures
            match r {
                Ok(true) => survey_step(old(self)@, reader@) == Ok::<Option<SurveyState>, Error>(
                    None,
                ) && final(self)@ == old(self)@,
                Ok(false) => survey_step(old(self)@, reader@) == Ok::<Option<SurveyState>, Error>(
                    Some(final(self)@),
                ),
                Err(e) => survey_step(old(self)@, reader@) == Err::<Option<SurveyState>, Error>(e)
                    && final(self)@ == old(self)@,
            },
    {
        let ifd_offset: u64 = match self.next_ifd {
            None => match reader.first_ifd_offset() {
                Err(e) => {
                    return Err(e);
                },
                Ok(offset) => {
                    self.next_ifd = Some(offset);
                    return Ok(false);
                },
            },
            Some(offset) => offset,
        };
        if ifd_offset == 0 {
            return Ok(true);
        }
        let (entries, next_ifd): (Vec<IfdEntry>, u64) = match reader.read_ifd(ifd_offset) {
            Ok(r) => r,
            Err(e) => {
                return Err(e);
            },
        };
        let (offsets, counts): (Vec<u64>, Vec<u64>) = match get_offsets_and_counts(
            &entries,
            reader,
        ) {
            Ok(r) => r,
            Err(e) => {
                return Err(e);
            },
        };
        let ghost before = self@;
        let ghost views = entry_views(entries@);
        let ghost mut texts: Map<u16, Seq<char>> = Map::empty();
        if self.mode != Mode::Consolidate {
            match extract_metadata(&entries, reader) {
                Ok(m) => {
                    proof {
                        texts = m@;
                    }
                    self.metadata.push(m);
                },
                Err(e) => {
                    return Err(e);
                },
            }
        }
        if self.image_dims.is_none() {
            self.image_dims = Some(extract_image_dimensions(&entries));
        }
        let filtered: Vec<IfdEntry> = filter_entries(entries, self.mode);
        self.ifds.push(SourceIfd { entries: filtered, offsets, counts });
        self.next_ifd = Some(next_ifd);
        proof {
            assert(self@ =~= add_ifd(before, views, next_ifd, offsets@, counts@, texts));
        }
        Ok(false)
    }

    /// Width, height and bits per sample; 0, 0 and 16 where there is no IFD.
    pub fn dimensions(&self) -> (r: (u32, u32, u16))
        ensures
            r == found_dims(self@),
    {
        match self.image_dims {
            Some(d) => d,
            None => (0, 0, 16),
        }
    }

    /// The description that the output gets.
    pub fn description(&self) -> (r: Option<String>)
        ensures
            match r {
                Some(xml) => description_of(self@) == Some(xml@),
                None => description_of(self@) is None,
            },
    {
        if self.mode == Mode::Ome {
            let (width, height, bits): (u32, u32, u16) = self.dimensions();
            Some(generate_ome_xml(width, height, self.ifds.len() as u64, bits))
        } else {
            None
        }
    }

    /// The largest size of image data, zero where there is none.
    pub fn max_strip_size(&self) -> (r: u64)
        ensures
            is_largest_count(self@.ifds, r),
    {
        let ghost views = self@.ifds;
        let mut max: u64 = 0;
        let mut i: usize = 0;
        while i < self.ifds.len()
            invariant
                i <= self.ifds@.len(),
                views == self@.ifds,
                is_largest_count(views.take(i as int), max),
            decreases self.ifds@.len() - i,
        {
            let counts: &Vec<u64> = &self.ifds[i].counts;
            let ghost start = max;
            let mut j: usize = 0;
            while j < counts.len()
                invariant
                    j <= counts@.len(),
                    start <= max,
                    forall|k: int| 0 <= k < j ==> counts@[k] <= max,
                    max == start || exists|k: int| 0 <= k < j && #[trigger] counts@[k] == max,
                decreases counts@.len() - j,
            {
                if counts[j] > max {
                    max = counts[j];
                    assert(counts@[j as int] == max);
                }
                j = j + 1;
            }
            proof {
                let now = views.take(i + 1);
                let then_ = views.take(i as int);
                assert(now[i as int].counts == counts@);
                assert forall|a: int, b: int|
                    0 <= a < now.len() && 0 <= b < now[a].counts.len() implies
                    #[trigger] now[a].counts[b] <= max by {
                    if a < i {
                        assert(now[a] == then_[a]);
                        assert(then_[a].counts[b] <= start);
                    }
                }
                if max != start {
                    let k = choose|k: int| 0 <= k < counts@.len() && #[trigger] counts@[k] == max;
                    assert(now[i as int].counts[k] == max);
                } else if max != 0 {
                    let (a, b) = choose|a: int, b: int|
                        0 <= a < then_.len() && 0 <= b < then_[a].counts.len()
                            && #[trigger] then_[a].counts[b] == max;
                    assert(now[a].counts[b] == max);
                }
            }
            i = i + 1;
        }
        assert(views.take(i as int) =~= views);
        max
    }
}

/// The largest size is at least as large as every size and, unless there is none,
/// is one of them; so there is only one.
pub proof fn law_largest_count(ifds: Seq<Ifd>, m: u64, other: u64, i: int, j: int)
    requires
        is_largest_count(ifds, m),
        0 <= i < ifds.len(),
        0 <= j < ifds[i].counts.len(),
    ensures
        ifds[i].counts[j] <= m,
        exists|a: int, b: int|
            0 <= a < ifds.len() && 0 <= b < ifds[a].counts.len() && #[trigger] ifds[a].counts[b]
                == m,
        is_largest_count(ifds, other) ==> other == m,
{
    assert(ifds[i].counts[j] <= m);
    if m == 0 {
        assert(ifds[i].counts[j] == m);
    }
    if is_largest_count(ifds, other) {
        assert(ifds[i].counts[j] <= other);
        if m != 0 {
            let (a, b) = choose|a: int, b: int|
                0 <= a < ifds.len() && 0 <= b < ifds[a].counts.len()
                    && #[trigger] ifds[a].counts[b] == m;
            assert(ifds[a].counts[b] <= other);
        }
        if other != 0 {
            let (a, b) = choose|a: int, b: int|
                0 <= a < ifds.len() && 0 <= b < ifds[a].counts.len()
                    && #[trigger] ifds[a].counts[b] == other;
            assert(ifds[a].counts[b] <= m);
        }
    }
}

/// Without image data the largest size is zero.
pub proof fn law_no_largest_count(ifds: Seq<Ifd>, m: u64)
    requires
        is_largest_count(ifds, m),
        forall|i: int| 0 <= i < ifds.len() ==> (#[trigger] ifds[i]).counts.len() == 0,
    ensures
        m == 0,
{
}

} // verus!
