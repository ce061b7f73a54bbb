//! Little-endian integers in byte sequences.
use vstd::prelude::*;

use crate::error::Error;

verus! {

/// The number whose little-endian digits in base 256 are `s`.
pub open spec fn le_value(s: Seq<u8>) -> nat
    decreases s.len(),
{
    if s.len() == 0 {
        0
    } else {
        (s[0] + 256 * le_value(s.drop_first())) as nat
    }
}

/// The `n` lowest little-endian digits of `v` in base 256.
pub open spec fn le_bytes(v: nat, n: nat) -> Seq<u8>
    decreases n,
{
    if n == 0 {
        Seq::empty()
    } else {
        seq![(v % 256) as u8] + le_bytes(v / 256, (n - 1) as nat)
    }
}

/// One more than the largest number of `n` digits in base 256.
pub open spec fn le_limit(n: nat) -> nat
    decreases n,
{
    if n == 0 {
        1
    } else {
        256 * le_limit((n - 1) as nat)
    }
}

/// `le_bytes` has as many digits as were asked for.
pub proof fn lemma_le_bytes_len(v: nat, n: nat)
    ensures
        le_bytes(v, n).len() == n,
    decreases n,
{
    if n > 0 {
        lemma_le_bytes_len(v / 256, (n - 1) as nat);
    }
}

/// A number of `n` digits is below the limit for `n` digits.
pub proof fn lemma_le_value_bound(s: Seq<u8>)
    ensures
        le_value(s) < le_limit(s.len()),
    decreases s.len(),
{
    if s.len() > 0 {
        lemma_le_value_bound(s.drop_first());
    }
}

/// The limits for the widths that occur in a file.
pub proof fn lemma_le_limits()
    ensures
        le_limit(2) == 0x1_0000,
        le_limit(4) == 0x1_0000_0000,
        le_limit(8) == 0x1_0000_0000_0000_0000,
{
    assert(le_limit(8) == 0x1_0000_0000_0000_0000) by {
        reveal_with_fuel(le_limit, 9);
    }
    assert(le_limit(4) == 0x1_0000_0000) by {
        reveal_with_fuel(le_limit, 5);
    }
    assert(le_limit(2) == 0x1_0000) by {
        reveal_with_fuel(le_limit, 3);
    }
}

/// Reading back the digits of a number gives that number: no value is lost
/// when it is written in enough bytes.
pub proof fn law_le_value_of_bytes(v: nat, n: nat)
    requires
        v < le_limit(n),
    ensures
        le_value(le_bytes(v, n)) == v,
    decreases n,
{
    if n > 0 {
        let rest = le_bytes(v / 256, (n - 1) as nat);
        law_le_value_of_bytes(v / 256, (n - 1) as nat);
        assert(le_bytes(v, n).drop_first() =~= rest);
    }
}

/// Writing the number that bytes stand for gives those bytes again.
pub proof fn law_le_bytes_of_value(s: Seq<u8>)
    ensures
        le_bytes(le_value(s), s.len()) == s,
    decreases s.len(),
{
    if s.len() > 0 {
        let rest = s.drop_first();
        law_le_bytes_of_value(rest);
        let v = le_value(s);
        assert(v == s[0] + 256 * le_value(rest));
        assert(v % 256 == s[0]);
        assert(v / 256 == le_value(rest));
        assert(seq![s[0]] + rest =~= s);
    } else {
        assert(le_bytes(0, 0) =~= s);
    }
}

/// The little-endian number of `width` bytes at `pos`.
pub fn le_at(data: &[u8], pos: usize, width: usize) -> (v: u64)
    requires
        width <= 8,
        pos + width <= data@.len(),
    ensures
        v == le_value(data@.subrange(pos as int, pos + width)),
{
    let end: usize = data.len();
    let mut v: u64 = 0;
    let mut i: usize = width;
    assert(data@.subrange(pos + width, pos + width) =~= Seq::<u8>::empty());
    while i > 0
        invariant
            i <= width <= 8,
            pos + width <= end == data@.len(),
            v == le_value(data@.subrange(pos + i, pos + width)),
        decreases i,
    {
        let ghost tail = data@.subrange(pos + i, pos + width);
        let ghost next = data@.subrange(pos + i - 1, pos + width);
        proof {
            assert(next.drop_first() =~= tail);
            lemma_le_value_bound(next);
            reveal_with_fuel(le_limit, 9);
            assert(le_limit(next.len()) <= 0x1_0000_0000_0000_0000);
        }
        i = i - 1;
        v = v * 256 + data[pos + i] as u64;
    }
    v
}

/// Reads the 16-bit integer at `pos`.
pub fn read_u16(data: &[u8], pos: usize) -> (r: Result<u16, Error>)
    ensures
        r == if pos + 2 <= data@.len() {
            Ok(le_value(data@.subrange(pos as int, pos + 2)) as u16)
        } else {
            Err(Error::UnexpectedEof)
        },
        pos + 2 <= data@.len() ==> le_value(data@.subrange(pos as int, pos + 2)) <= u16::MAX,
{
    if pos > data.len() || data.len() - pos < 2 {
        return Err(Error::UnexpectedEof);
    }
    proof {
        lemma_le_value_bound(data@.subrange(pos as int, pos + 2));
        lemma_le_limits();
    }
    Ok(le_at(data, pos, 2) as u16)
}

/// Reads the 64-bit integer at `pos`.
pub fn read_u64(data: &[u8], pos: usize) -> (r: Result<u64, Error>)
    ensures
        r == if pos + 8 <= data@.len() {
            Ok(le_value(data@.subrange(pos as int, pos + 8)) as u64)
        } else {
            Err(Error::UnexpectedEof)
        },
        pos + 8 <= data@.len() ==> le_value(data@.subrange(pos as int, pos + 8)) <= u64::MAX,
{
    if pos > data.len() || data.len() - pos < 8 {
        return Err(Error::UnexpectedEof);
    }
    proof {
        lemma_le_value_bound(data@.subrange(pos as int, pos + 8));
        lemma_le_limits();
    }
    Ok(le_at(data, pos, 8))
}

/// Appends the `width` lowest digits of `v`.
fn push_le(w: &mut Vec<u8>, v: u64, width: usize)
    ensures
        final(w)@ == old(w)@ + le_bytes(v as nat, width as nat),
{
    let ghost start = w@;
    let mut rest: u64 = v;
    let mut i: usize = 0;
    while i < width
        invariant
            i <= width,
            w@ + le_bytes(rest as nat, (width - i) as nat) == start + le_bytes(
                v as nat,
                width as nat,
            ),
        decreases width - i,
    {
        let ghost before = w@;
        let ghost old_rest = rest;
        w.push((rest % 256) as u8);
        rest = rest / 256;
        i = i + 1;
        assert(w@ + le_bytes(rest as nat, (width - i) as nat) =~= before + le_bytes(
            old_rest as nat,
            (width - i + 1) as nat,
        ));
    }
    assert(w@ =~= start + le_bytes(v as nat, width as nat));
}

/// Appends a 16-bit integer.
pub fn write_u16(w: &mut Vec<u8>, v: u16)
    ensures
        final(w)@ == old(w)@ + le_bytes(v as nat, 2),
{
    push_le(w, v as u64, 2)
}

/// Appends a 64-bit integer.
pub fn write_u64(w: &mut Vec<u8>, v: u64)
    ensures
        final(w)@ == old(w)@ + le_bytes(v as nat, 8),
{
    push_le(w, v, 8)
}

/// The eight bytes of a 64-bit integer.
pub fn u64_bytes(v: u64) -> (b: [u8; 8])
    ensures
        b@ == le_bytes(v as nat, 8),
{
    let b: [u8; 8] = [
        (v % 0x100) as u8,
        (v / 0x100 % 0x100) as u8,
        (v / 0x1_0000 % 0x100) as u8,
        (v / 0x100_0000 % 0x100) as u8,
        (v / 0x1_0000_0000 % 0x100) as u8,
        (v / 0x100_0000_0000 % 0x100) as u8,
        (v / 0x1_0000_0000_0000 % 0x100) as u8,
        (v / 0x100_0000_0000_0000 % 0x100) as u8,
    ];
    proof {
        reveal_with_fuel(le_bytes, 9);
        assert(b@ =~= le_bytes(v as nat, 8));
    }
    b
}

/// The 16-bit word at `at`.
pub open spec fn word16(b: Seq<u8>, at: int) -> int {
    b[at] + 0x100 * b[at + 1]
}

/// The 32-bit word at `at`.
pub open spec fn word32(b: Seq<u8>, at: int) -> int {
    b[at] + 0x100 * b[at + 1] + 0x1_0000 * b[at + 2] + 0x100_0000 * b[at + 3]
}

/// The 64-bit word at `at`.
pub open spec fn word64(b: Seq<u8>, at: int) -> int {
    word32(b, at) + 0x1_0000_0000 * word32(b, at + 4)
}

/// Byte sequences stand for the words that their bytes make up, the lowest first.
pub proof fn law_words(b: Seq<u8>, at: int)
    requires
        0 <= at,
    ensures
        at + 2 <= b.len() ==> le_value(b.subrange(at, at + 2)) == word16(b, at) <= u16::MAX,
        at + 4 <= b.len() ==> le_value(b.subrange(at, at + 4)) == word32(b, at) <= u32::MAX,
        at + 8 <= b.len() ==> le_value(b.subrange(at, at + 8)) == word64(b, at) <= u64::MAX,
{
    if at + 2 <= b.len() {
        lemma_word16(b, at);
    }
    if at + 4 <= b.len() {
        lemma_word32(b, at);
    }
    if at + 8 <= b.len() {
        let s = b.subrange(at, at + 8);
        let high = b.subrange(at + 4, at + 8);
        lemma_word32(b, at);
        lemma_word32(b, at + 4);
        lemma_le_value_split(b.subrange(at, at + 4), high);
        assert(s =~= b.subrange(at, at + 4) + high);
        lemma_le_limits();
    }
}

/// The value of bytes that follow other bytes.
proof fn lemma_le_value_split(a: Seq<u8>, b: Seq<u8>)
    ensures
        le_value(a + b) == le_value(a) + le_limit(a.len()) * le_value(b),
    decreases a.len(),
{
    if a.len() == 0 {
        assert(a + b =~= b);
        assert(le_limit(a.len()) * le_value(b) == le_value(b)) by (nonlinear_arith)
            requires
                le_limit(a.len()) == 1,
        ;
    } else {
        lemma_le_value_split(a.drop_first(), b);
        assert((a + b).drop_first() =~= a.drop_first() + b);
        let l = le_limit((a.len() - 1) as nat);
        let v = le_value(b);
        assert(le_limit(a.len()) == 256 * l);
        assert((a + b)[0] == a[0]);
        assert(256 * (l * v) == (256 * l) * v) by (nonlinear_arith);
    }
}

/// Two bytes.
proof fn lemma_word16(b: Seq<u8>, at: int)
    requires
        0 <= at,
        at + 2 <= b.len(),
    ensures
        le_value(b.subrange(at, at + 2)) == word16(b, at),
{
    let s = b.subrange(at, at + 2);
    assert(s.drop_first() =~= seq![b[at + 1]]);
    assert(seq![b[at + 1]].drop_first() =~= Seq::<u8>::empty());
    reveal_with_fuel(le_value, 3);
}

/// Four bytes.
proof fn lemma_word32(b: Seq<u8>, at: int)
    requires
        0 <= at,
        at + 4 <= b.len(),
    ensures
        le_value(b.subrange(at, at + 4)) == word32(b, at),
{
    lemma_word16(b, at);
    lemma_word16(b, at + 2);
    lemma_le_value_split(b.subrange(at, at + 2), b.subrange(at + 2, at + 4));
    assert(b.subrange(at, at + 4) =~= b.subrange(at, at + 2) + b.subrange(at + 2, at + 4));
    lemma_le_limits();
}

} // verus!
