//! Arrays of offsets and byte counts.
use vstd::prelude::*;

use crate::bytes::{law_le_value_of_bytes, law_words, le_at, le_bytes, le_value, lemma_le_bytes_len,
    lemma_le_limits, word16, word32, word64, write_u64};
use crate::entry::LONG8;

verus! {

/// Bytes per number for the field types that hold offsets, zero for others.
pub open spec fn number_width(typ: u16) -> nat {
    if typ == 3 {
        2
    } else if typ == 4 {
        4
    } else if typ == 16 {
        8
    } else {
        0
    }
}

/// The number at index `i` of an array of numbers of `width` bytes.
pub open spec fn number_at(data: Seq<u8>, width: nat, i: int) -> u64 {
    le_value(data.subrange(i * width, i * width + width)) as u64
}

/// The `count` numbers of field type `typ` that `data` holds; none where the
/// type is not one that offsets have.
pub open spec fn numbers(data: Seq<u8>, typ: u16, count: nat) -> Seq<u64> {
    if number_width(typ) == 0 {
        Seq::empty()
    } else {
        Seq::new(count, |i: int| number_at(data, number_width(typ), i))
    }
}

/// Decodes an array of offsets or byte counts.
pub fn parse_offsets(data: &[u8], typ: u16, count: u64) -> (result: Vec<u64>)
    requires
        data@.len() >= count * number_width(typ),
    ensures
        result@ == numbers(data@, typ, count as nat),
{
    let width: usize = match typ {
        3 => 2,
        4 => 4,
        16 => 8,
        _ => 0,
    };
    let mut result: Vec<u64> = Vec::new();
    if width == 0 {
        return result;
    }
    let len: usize = data.len();
    let mut i: u64 = 0;
    let mut pos: usize = 0;
    while i < count
        invariant
            i <= count,
            width == number_width(typ),
            2 <= width <= 8,
            len == data@.len(),
            pos == i * width,
            count * width <= len,
            result@.len() == i,
            forall|j: int| 0 <= j < i ==> result@[j] == #[trigger] number_at(data@, width as nat, j),
        decreases count - i,
    {
        assert((i + 1) * width == i * width + width) by (nonlinear_arith);
        assert((i + 1) * width <= count * width) by (nonlinear_arith)
            requires
                i + 1 <= count,
        ;
        let v: u64 = le_at(data, pos, width);
        assert(v == number_at(data@, width as nat, i as int));
        result.push(v);
        pos = pos + width;
        i = i + 1;
    }
    assert(result@ =~= numbers(data@, typ, count as nat));
    result
}

/// The bytes of an array of 64-bit numbers.
pub open spec fn encode_numbers(s: Seq<u64>) -> Seq<u8>
    decreases s.len(),
{
    if s.len() == 0 {
        Seq::empty()
    } else {
        encode_numbers(s.drop_last()) + le_bytes(s.last() as nat, 8)
    }
}

/// Encodes offsets, always as 64-bit numbers; also says their field type.
pub fn encode_offsets(offsets: &[u64]) -> (r: (u16, Vec<u8>))
    ensures
        r.0 == LONG8,
        r.1@ == encode_numbers(offsets@),
{
    let mut data: Vec<u8> = Vec::new();
    let mut i: usize = 0;
    while i < offsets.len()
        invariant
            i <= offsets@.len(),
            data@ == encode_numbers(offsets@.take(i as int)),
        decreases offsets@.len() - i,
    {
        write_u64(&mut data, offsets[i]);
        i = i + 1;
        assert(offsets@.take(i as int).drop_last() =~= offsets@.take(i - 1));
    }
    assert(offsets@.take(i as int) =~= offsets@);
    (LONG8, data)
}

/// Numbers take eight bytes each and stand in order.
pub proof fn lemma_encode_numbers(s: Seq<u64>)
    ensures
        encode_numbers(s).len() == 8 * s.len(),
        forall|i: int|
            0 <= i < s.len() ==> encode_numbers(s).subrange(8 * i, 8 * i + 8) == le_bytes(
                #[trigger] s[i] as nat,
                8,
            ),
    decreases s.len(),
{
    if s.len() > 0 {
        let front = s.drop_last();
        let bytes = encode_numbers(s);
        lemma_encode_numbers(front);
        lemma_le_bytes_len(s.last() as nat, 8);
        assert forall|i: int| 0 <= i < s.len() implies bytes.subrange(8 * i, 8 * i + 8) == le_bytes(
            #[trigger] s[i] as nat,
            8,
        ) by {
            if i < front.len() {
                assert(front[i] == s[i]);
                assert(bytes.subrange(8 * i, 8 * i + 8) =~= encode_numbers(front).subrange(
                    8 * i,
                    8 * i + 8,
                ));
            } else {
                assert(bytes.subrange(8 * i, 8 * i + 8) =~= le_bytes(s.last() as nat, 8));
            }
        }
    }
}

/// Offsets that were encoded are decoded to themselves, also where more bytes
/// follow.
pub proof fn law_parse_encoded_offsets(s: Seq<u64>, data: Seq<u8>)
    requires
        8 * s.len() <= data.len(),
        data.take(8 * s.len() as int) == encode_numbers(s),
    ensures
        numbers(data, LONG8, s.len()) == s,
{
    lemma_encode_numbers(s);
    lemma_le_limits();
    assert forall|i: int| 0 <= i < s.len() implies #[trigger] numbers(data, LONG8, s.len())[i]
        == s[i] by {
        assert(data.subrange(8 * i, 8 * i + 8) =~= data.take(8 * s.len() as int).subrange(
            8 * i,
            8 * i + 8,
        ));
        law_le_value_of_bytes(s[i] as nat, 8);
    }
    assert(numbers(data, LONG8, s.len()) =~= s);
}

/// Arrays of offsets hold words of 2, 4 or 8 bytes, after their field type, one
/// after the other; other field types hold none.
pub proof fn law_numbers(data: Seq<u8>, typ: u16, count: nat, i: int)
    requires
        0 <= i < count,
    ensures
        typ == 3 || typ == 4 || typ == 16 ==> numbers(data, typ, count).len() == count,
        typ == 3 && 2 * count <= data.len() ==> numbers(data, typ, count)[i] == word16(
            data,
            2 * i,
        ),
        typ == 4 && 4 * count <= data.len() ==> numbers(data, typ, count)[i] == word32(
            data,
            4 * i,
        ),
        typ == 16 && 8 * count <= data.len() ==> numbers(data, typ, count)[i] == word64(
            data,
            8 * i,
        ),
        typ != 3 && typ != 4 && typ != 16 ==> numbers(data, typ, count).len() == 0,
{
    law_words(data, 2 * i);
    law_words(data, 4 * i);
    law_words(data, 8 * i);
}

} // verus!
