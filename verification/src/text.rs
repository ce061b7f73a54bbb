//! Building text.
use vstd::prelude::*;
use vstd::utf8::{encode_utf8, encode_utf8_decode_utf8};

verus! {

/// `String::push` of std appends one character to the string.
pub assume_specification[ String::push ](s: &mut String, c: char)
    ensures
        final(s)@ == old(s)@.push(c),
;

/// The digit of `d` in base 10 or 16, in lower case.
pub open spec fn digit(d: nat) -> char {
    if d < 10 {
        (48 + d) as char
    } else {
        (87 + d) as char
    }
}

/// The decimal digits of a number.
pub open spec fn decimal(v: nat) -> Seq<char>
    decreases v,
{
    if v < 10 {
        seq![digit(v)]
    } else {
        decimal(v / 10).push(digit(v % 10))
    }
}

/// The last four hexadecimal digits of a number.
pub open spec fn hex4(v: nat) -> Seq<char> {
    seq![digit(v / 4096 % 16), digit(v / 256 % 16), digit(v / 16 % 16), digit(v % 16)]
}

/// The digit of `d` in base 10 or 16, in lower case.
fn digit_char(d: u8) -> (c: char)
    requires
        d < 16,
    ensures
        c == digit(d as nat),
{
    if d < 10 {
        (48 + d) as char
    } else {
        (87 + d) as char
    }
}

/// Appends a number in decimal.
pub fn push_decimal(s: &mut String, v: u64)
    ensures
        final(s)@ == old(s)@ + decimal(v as nat),
    decreases v,
{
    let ghost start = s@;
    if v >= 10 {
        push_decimal(s, v / 10);
    }
    s.push(digit_char((v % 10) as u8));
    assert(s@ =~= start + decimal(v as nat));
}

/// Appends the last four hexadecimal digits of a number.
pub fn push_hex4(s: &mut String, v: u32)
    ensures
        final(s)@ == old(s)@ + hex4(v as nat),
{
    let ghost start = s@;
    s.push(digit_char((v / 4096 % 16) as u8));
    s.push(digit_char((v / 256 % 16) as u8));
    s.push(digit_char((v / 16 % 16) as u8));
    s.push(digit_char((v % 16) as u8));
    assert(s@ =~= start + hex4(v as nat));
}

/// The characters of a string.
pub fn chars_of(s: &str) -> (v: Vec<char>)
    ensures
        v@ == s@,
{
    let mut v: Vec<char> = Vec::new();
    for c in it: s.chars()
        invariant
            v@ == it.seq().take(it.index()),
            it.seq() == s@,
    {
        v.push(c);
        assert(v@ =~= it.seq().take(it.index() + 1));
    }
    assert(v@ =~= s@);
    v
}

/// Whether two strings are the same.
pub fn same_text(a: &str, b: &str) -> (r: bool)
    ensures
        r == (a@ == b@),
{
    let x: &[u8] = a.as_bytes();
    let y: &[u8] = b.as_bytes();
    proof {
        encode_utf8_decode_utf8(a@);
        encode_utf8_decode_utf8(b@);
    }
    if x.len() != y.len() {
        return false;
    }
    let mut i: usize = 0;
    while i < x.len()
        invariant
            i <= x@.len() == y@.len(),
            x@.take(i as int) == y@.take(i as int),
            x@ == encode_utf8(a@),
            y@ == encode_utf8(b@),
        decreases x@.len() - i,
    {
        if x[i] != y[i] {
            return false;
        }
        i = i + 1;
        assert(x@.take(i as int) =~= x@.take(i - 1).push(x@[i - 1]));
        assert(y@.take(i as int) =~= y@.take(i - 1).push(y@[i - 1]));
    }
    assert(x@ =~= x@.take(i as int));
    assert(y@ =~= y@.take(i as int));
    true
}

/// The last digit of a number is its remainder by ten; those before it are the
/// digits of the tenth part, if there is one.
pub proof fn law_decimal(v: nat)
    ensures
        decimal(v).len() > 0,
        decimal(v).last() as int == '0' as int + v % 10,
        v < 10 ==> decimal(v).len() == 1,
        v >= 10 ==> decimal(v).drop_last() == decimal(v / 10),
{
    if v >= 10 {
        assert(decimal(v).drop_last() =~= decimal(v / 10));
    }
}

/// Only digits occur in a number, and none but zero begins with a zero.
pub proof fn law_decimal_digits(v: nat)
    ensures
        forall|i: int| 0 <= i < decimal(v).len() ==> '0' <= #[trigger] decimal(v)[i] <= '9',
        v > 0 ==> decimal(v)[0] != '0',
    decreases v,
{
    law_decimal(v);
    if v >= 10 {
        law_decimal_digits(v / 10);
        let front = decimal(v / 10);
        assert forall|i: int| 0 <= i < decimal(v).len() implies '0' <= #[trigger] decimal(v)[i]
            <= '9' by {
            if i < front.len() {
                assert(decimal(v)[i] == front[i]);
            } else {
                assert(decimal(v)[i] == decimal(v).last());
            }
        }
        assert(decimal(v)[0] == front[0]);
    }
}

} // verus!
