//! Planning the output file.
//!
//! A writer records what has to be done to the output, in order; whoever owns
//! the files carries it out.
use vstd::prelude::*;

use crate::bytes::{law_le_value_of_bytes, law_words, le_bytes, lemma_le_bytes_len, lemma_le_limits,
    word64, write_u16, write_u64};
use crate::entry::{encode_entries, encode_ifd, entry_views, write_entry, IfdEntry};
use crate::error::Error;
use crate::reader::{BIGTIFF_MAGIC, LITTLE_ENDIAN};

verus! {

/// Something to be done to the output file.
pub enum Action {
    /// Append these bytes.
    Append(Vec<u8>),
    /// Append the `len` bytes of the input file from `offset` on.
    Copy { offset: u64, len: u64 },
    /// Overwrite the eight bytes at `position` with `value`.
    Patch { position: u64, value: u64 },
}

/// The mathematical content of an action.
pub enum Piece {
    Append(Seq<u8>),
    Copy { offset: u64, len: u64 },
    Patch { position: u64, value: u64 },
}

impl View for Action {
    type V = Piece;

    open spec fn view(&self) -> Piece {
        match self {
            Action::Append(b) => Piece::Append(b@),
            Action::Copy { offset, len } => Piece::Copy { offset: *offset, len: *len },
            Action::Patch { position, value } => Piece::Patch {
                position: *position,
                value: *value,
            },
        }
    }
}

/// The contents of a list of actions.
pub open spec fn pieces(actions: Seq<Action>) -> Seq<Piece> {
    actions.map_values(|a: Action| a@)
}

/// An output in the making: the position that the next byte gets, and what was
/// done so far.
#[verifier::ext_equal]
pub struct Out {
    pub pos: int,
    pub pieces: Seq<Piece>,
}

/// `len` bytes of `source` from `offset` on.
pub open spec fn range_of(source: Seq<u8>, offset: int, len: nat) -> Seq<u8> {
    Seq::new(len, |i: int| source[offset + i])
}

/// `bytes` in place of what `content` has from `at` on.
pub open spec fn overwrite(content: Seq<u8>, at: int, bytes: Seq<u8>) -> Seq<u8> {
    Seq::new(
        content.len(),
        |i: int|
            if at <= i < at + bytes.len() {
                bytes[i - at]
            } else {
                content[i]
            },
    )
}

/// The file that comes of doing one thing to `content`.
pub open spec fn perform(source: Seq<u8>, content: Seq<u8>, piece: Piece) -> Seq<u8> {
    match piece {
        Piece::Append(b) => content + b,
        Piece::Copy { offset, len } => content + range_of(source, offset as int, len as nat),
        Piece::Patch { position, value } => overwrite(
            content,
            position as int,
            le_bytes(value as nat, 8),
        ),
    }
}

/// The file that comes of doing all things in order, starting from an empty one.
pub open spec fn render(source: Seq<u8>, pieces: Seq<Piece>) -> Seq<u8>
    decreases pieces.len(),
{
    if pieces.len() == 0 {
        Seq::empty()
    } else {
        perform(source, render(source, pieces.drop_last()), pieces.last())
    }
}

/// `n` zero bytes.
pub open spec fn zeros(n: nat) -> Seq<u8> {
    Seq::new(n, |i: int| 0u8)
}

/// Appends bytes.
pub open spec fn put(o: Out, bytes: Seq<u8>) -> Out {
    Out { pos: o.pos + bytes.len(), pieces: o.pieces.push(Piece::Append(bytes)) }
}

/// Appends a range of the input.
pub open spec fn put_copy(o: Out, offset: u64, len: u64) -> Out {
    Out { pos: o.pos + len, pieces: o.pieces.push(Piece::Copy { offset, len }) }
}

/// Overwrites a word.
pub open spec fn put_patch(o: Out, position: u64, value: u64) -> Out {
    Out { pos: o.pos, pieces: o.pieces.push(Piece::Patch { position, value }) }
}

/// Appends zeros up to the next multiple of `alignment`.
pub open spec fn pad(o: Out, alignment: int) -> Out {
    if o.pos % alignment == 0 {
        o
    } else {
        put(o, zeros((alignment - o.pos % alignment) as nat))
    }
}

/// The bytes of a header whose first IFD is not known yet.
pub open spec fn header_bytes() -> Seq<u8> {
    le_bytes(LITTLE_ENDIAN as nat, 2) + le_bytes(BIGTIFF_MAGIC as nat, 2) + le_bytes(8, 2)
        + le_bytes(0, 2) + le_bytes(0, 8)
}

/// A file with nothing but its header.
pub open spec fn put_header() -> Out {
    Out { pos: 16, pieces: seq![Piece::Append(header_bytes())] }
}

/// A writer of a BigTIFF file.
pub struct BigTiffWriter {
    position: u64,
    actions: Vec<Action>,
}

impl View for BigTiffWriter {
    type V = Out;

    closed spec fn view(&self) -> Out {
        Out { pos: self.position as int, pieces: pieces(self.actions@) }
    }
}

impl BigTiffWriter {
    /// A writer that has written the header, with no first IFD yet.
    pub fn create() -> (w: BigTiffWriter)
        ensures
            w@ == put_header(),
    {
        let mut header: Vec<u8> = Vec::new();
        write_u16(&mut header, LITTLE_ENDIAN);
        write_u16(&mut header, BIGTIFF_MAGIC);
        write_u16(&mut header, 8);
        write_u16(&mut header, 0);
        write_u64(&mut header, 0);
        assert(header@ =~= header_bytes());
        let mut actions: Vec<Action> = Vec::new();
        actions.push(Action::Append(header));
        let w = BigTiffWriter { position: 16, actions };
        assert(w@.pieces =~= put_header().pieces);
        w
    }

    /// A position is addressable.
    pub proof fn lemma_position(&self)
        ensures
            0 <= self@.pos <= u64::MAX,
    {
    }

    /// Records an action.
    fn record(&mut self, action: Action)
        ensures
            final(self).position == old(self).position,
            final(self)@.pieces == old(self)@.pieces.push(action@),
    {
        self.actions.push(action);
        assert(self@.pieces =~= old(self)@.pieces.push(action@));
    }

    /// Enters the place of the first IFD in the header.
    pub fn write_first_ifd_offset(&mut self, offset: u64)
        ensures
            final(self)@ == put_patch(old(self)@, 8, offset),
    {
        self.record(Action::Patch { position: 8, value: offset });
    }

    /// The position that the next byte gets.
    pub fn current_position(&self) -> (p: u64)
        ensures
            p == self@.pos,
    {
        self.position
    }

    /// Appends bytes; returns where they start.
    pub fn write_bytes(&mut self, data: Vec<u8>) -> (r: Result<u64, Error>)
        ensures
            match r {
                Ok(pos) => pos == old(self)@.pos && final(self)@ == put(old(self)@, data@)
                    && final(self)@.pos <= u64::MAX,
                Err(e) => e == Error::OutputTooLarge && put(old(self)@, data@).pos > u64::MAX
                    && final(self)@ == old(self)@,
            },
    {
        let pos: u64 = self.position;
        let len: u64 = data.len() as u64;
        if len > u64::MAX - pos {
            return Err(Error::OutputTooLarge);
        }
        self.record(Action::Append(data));
        self.position = pos + len;
        Ok(pos)
    }

    /// Appends a range of the input file; returns where it starts.
    pub fn copy_bytes(&mut self, offset: u64, len: u64) -> (r: Result<u64, Error>)
        ensures
            match r {
                Ok(pos) => pos == old(self)@.pos && final(self)@ == put_copy(
                    old(self)@,
                    offset,
                    len,
                ) && final(self)@.pos <= u64::MAX,
                Err(e) => e == Error::OutputTooLarge && put_copy(old(self)@, offset, len).pos
                    > u64::MAX && final(self)@ == old(self)@,
            },
    {
        let pos: u64 = self.position;
        if len > u64::MAX - pos {
            return Err(Error::OutputTooLarge);
        }
        self.record(Action::Copy { offset, len });
        self.position = pos + len;
        Ok(pos)
    }

    /// Appends an IFD; returns its place.
    pub fn write_ifd(&mut self, entries: &[IfdEntry], next_ifd: u64) -> (r: Result<u64, Error>)
        ensures
            match r {
                Ok(pos) => pos == old(self)@.pos && final(self)@ == put(
                    old(self)@,
                    encode_ifd(entry_views(entries@), next_ifd as nat),
                ) && final(self)@.pos <= u64::MAX,
                Err(e) => e == Error::OutputTooLarge && put(
                    old(self)@,
                    encode_ifd(entry_views(entries@), next_ifd as nat),
                ).pos > u64::MAX && final(self)@ == old(self)@,
            },
    {
        let mut data: Vec<u8> = Vec::new();
        let ghost views = entry_views(entries@);
        write_u64(&mut data, entries.len() as u64);
        let ghost head = data@;
        let mut i: usize = 0;
        while i < entries.len()
            invariant
                i <= entries@.len(),
                views == entry_views(entries@),
                data@ == head + encode_entries(views.take(i as int)),
            decreases entries@.len() - i,
        {
            write_entry(&mut data, &entries[i]);
            i = i + 1;
            proof {
                assert(views.take(i as int).drop_last() =~= views.take(i - 1));
                assert(views.take(i as int).last() == entries@[i - 1]@);
                assert(data@ =~= head + encode_entries(views.take(i as int)));
            }
        }
        write_u64(&mut data, next_ifd);
        proof {
            assert(views.take(i as int) =~= views);
            assert(data@ =~= encode_ifd(views, next_ifd as nat));
        }
        self.write_bytes(data)
    }

    /// Enters the place of the next IFD in the IFD at `ifd_offset`, which has
    /// `num_entries` entries.
    pub fn update_next_ifd(&mut self, ifd_offset: u64, next_ifd: u64, num_entries: u64)
        requires
            ifd_offset + 8 + num_entries * 20 <= u64::MAX,
        ensures
            final(self)@ == put_patch(
                old(self)@,
                (ifd_offset + 8 + num_entries * 20) as u64,
                next_ifd,
            ),
    {
        let next_ifd_pos: u64 = ifd_offset + 8 + num_entries * 20;
        self.record(Action::Patch { position: next_ifd_pos, value: next_ifd });
    }

    /// Appends zeros up to the next multiple of `alignment`.
    pub fn align(&mut self, alignment: u64) -> (r: Result<(), Error>)
        requires
            0 < alignment,
        ensures
            match r {
                Ok(_) => final(self)@ == pad(old(self)@, alignment as int) && final(self)@.pos
                    <= u64::MAX,
                Err(e) => e == Error::OutputTooLarge && pad(old(self)@, alignment as int).pos
                    > u64::MAX && final(self)@ == old(self)@,
            },
    {
        let remainder: u64 = self.position % alignment;
        if remainder == 0 {
            return Ok(());
        }
        let padding: u64 = alignment - remainder;
        if padding > u64::MAX - self.position {
            return Err(Error::OutputTooLarge);
        }
        let mut data: Vec<u8> = Vec::new();
        let mut i: u64 = 0;
        while i < padding
            invariant
                i <= padding,
                data@ == zeros(i as nat),
            decreases padding - i,
        {
            data.push(0);
            i = i + 1;
            assert(data@ =~= zeros(i as nat));
        }
        match self.write_bytes(data) {
            Ok(_) => Ok(()),
            Err(e) => Err(e),
        }
    }

    /// Hands out what was recorded and not handed out before.
    pub fn flush(&mut self) -> (actions: Vec<Action>)
        ensures
            pieces(actions@) == old(self)@.pieces,
            final(self)@ == (Out { pos: old(self)@.pos, pieces: Seq::empty() }),
    {
        let mut actions: Vec<Action> = Vec::new();
        core::mem::swap(&mut actions, &mut self.actions);
        assert(self@.pieces =~= Seq::<Piece>::empty());
        actions
    }
}

/// Padding goes to the next multiple of the alignment and no further, with zeros;
/// where the position is one already, nothing is written.
pub proof fn law_pad(o: Out, alignment: int)
    requires
        0 < alignment,
        0 <= o.pos,
    ensures
        pad(o, alignment).pos % alignment == 0,
        o.pos <= pad(o, alignment).pos < o.pos + alignment,
        o.pos % alignment == 0 ==> pad(o, alignment) == o,
        o.pos % alignment != 0 ==> pad(o, alignment).pieces == o.pieces.push(
            Piece::Append(Seq::new((pad(o, alignment).pos - o.pos) as nat, |i: int| 0u8)),
        ),
{
    let r = o.pos % alignment;
    let q = o.pos / alignment;
    vstd::arithmetic::div_mod::lemma_fundamental_div_mod(o.pos, alignment);
    vstd::arithmetic::div_mod::lemma_mod_bound(o.pos, alignment);
    if r != 0 {
        assert(o.pos + (alignment - r) == alignment * (q + 1)) by (nonlinear_arith)
            requires
                o.pos == alignment * q + r,
        ;
        vstd::arithmetic::div_mod::lemma_mod_multiples_basic(q + 1, alignment);
        assert((q + 1) * alignment == alignment * (q + 1)) by (nonlinear_arith);
        assert(zeros((alignment - r) as nat) =~= Seq::new((alignment - r) as nat, |i: int| 0u8));
    }
}

/// Padding is zeros.
pub proof fn law_zeros(n: nat, i: int)
    ensures
        zeros(n).len() == n,
        0 <= i < n ==> zeros(n)[i] == 0,
{
}

/// What is done to a file: bytes and ranges of the source are put behind what is
/// there; a patch changes eight bytes and no others.
pub proof fn law_perform(
    source: Seq<u8>,
    content: Seq<u8>,
    bytes: Seq<u8>,
    offset: u64,
    len: u64,
    value: u64,
    i: int,
)
    ensures
        perform(source, content, Piece::Append(bytes)) == content + bytes,
        offset + len <= source.len() ==> perform(source, content, Piece::Copy { offset, len })
            == content + source.subrange(offset as int, offset + len),
        ({
            let patched = perform(source, content, Piece::Patch { position: offset, value });
            &&& patched.len() == content.len()
            &&& 0 <= i < content.len() && !(offset <= i < offset + 8) ==> patched[i] == content[i]
            &&& offset + 8 <= content.len() ==> word64(patched, offset as int) == value
        }),
{
    if offset + len <= source.len() {
        assert(range_of(source, offset as int, len as nat) =~= source.subrange(
            offset as int,
            offset + len,
        ));
    }
    let patched = perform(source, content, Piece::Patch { position: offset, value });
    lemma_le_bytes_len(value as nat, 8);
    if offset + 8 <= content.len() {
        lemma_le_limits();
        law_le_value_of_bytes(value as nat, 8);
        law_words(patched, offset as int);
        assert(patched.subrange(offset as int, offset + 8) =~= le_bytes(value as nat, 8));
    }
}

} // verus!
