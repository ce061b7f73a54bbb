//! What a reader of the exported metadata can rely on.
use vstd::prelude::*;

use crate::metadata::{escape_char, escape_text, is_control, is_descriptive, json_accepted,
    json_line, json_member, json_members, json_string, json_value, name_of, on_one_line,
    tags_by_name};
use crate::text::{digit, hex4};

verus! {

/// The value of a hexadecimal digit.
pub open spec fn digit_value(c: char) -> Option<nat> {
    if '0' <= c <= '9' {
        Some((c as int - '0' as int) as nat)
    } else if 'a' <= c <= 'f' {
        Some((c as int - 'a' as int + 10) as nat)
    } else if 'A' <= c <= 'F' {
        Some((c as int - 'A' as int + 10) as nat)
    } else {
        None
    }
}

/// The character that four hexadecimal digits stand for; none where they are a
/// half of a surrogate pair.
pub open spec fn code_unit(a: char, b: char, c: char, d: char) -> Option<char> {
    match (digit_value(a), digit_value(b), digit_value(c), digit_value(d)) {
        (Some(w), Some(x), Some(y), Some(z)) => {
            let v = ((w * 16 + x) * 16 + y) * 16 + z;
            if 0xd800 <= v < 0xe000 {
                None
            } else {
                Some(v as char)
            }
        },
        _ => None,
    }
}

/// The character that a backslash and `c` stand for.
pub open spec fn short_escape(c: char) -> Option<char> {
    if c == '"' || c == '\\' || c == '/' {
        Some(c)
    } else if c == 'n' {
        Some('\n')
    } else if c == 'r' {
        Some('\r')
    } else if c == 't' {
        Some('\t')
    } else if c == 'b' {
        Some(8 as char)
    } else if c == 'f' {
        Some(12 as char)
    } else {
        None
    }
}

/// The text between the quotes of a JSON string, as a reader takes it. There is
/// none where a quote or a control character below U+0020 stands for itself, or
/// an escape is malformed.
pub open spec fn unescape(s: Seq<char>) -> Option<Seq<char>>
    decreases s.len(),
{
    if s.len() == 0 {
        Some(Seq::empty())
    } else if s[0] == '"' || s[0] as int <= 0x1f {
        None
    } else if s[0] != '\\' {
        match unescape(s.skip(1)) {
            Some(rest) => Some(seq![s[0]] + rest),
            None => None,
        }
    } else if s.len() >= 6 && s[1] == 'u' {
        match (code_unit(s[2], s[3], s[4], s[5]), unescape(s.skip(6))) {
            (Some(c), Some(rest)) => Some(seq![c] + rest),
            _ => None,
        }
    } else if s.len() >= 2 {
        match (short_escape(s[1]), unescape(s.skip(2))) {
            (Some(c), Some(rest)) => Some(seq![c] + rest),
            _ => None,
        }
    } else {
        None
    }
}

/// A digit has its value.
proof fn lemma_digit_value(d: nat)
    requires
        d < 16,
    ensures
        digit_value(digit(d)) == Some(d),
{
}

/// A control character is read back from its code.
proof fn lemma_code_unit(c: char)
    requires
        is_control(c),
    ensures
        ({
            let h = hex4(c as nat);
            code_unit(h[0], h[1], h[2], h[3]) == Some(c)
        }),
{
    let v = c as nat;
    lemma_digit_value(v / 4096 % 16);
    lemma_digit_value(v / 256 % 16);
    lemma_digit_value(v / 16 % 16);
    lemma_digit_value(v % 16);
}

/// An escaped character is read back, whatever follows it.
proof fn lemma_unescape_char(c: char, rest: Seq<char>)
    requires
        unescape(rest) is Some,
    ensures
        unescape(escape_char(c) + rest) == Some(seq![c] + unescape(rest)->0),
{
    let e = escape_char(c);
    let s = e + rest;
    assert(s.skip(e.len() as int) =~= rest);
    if is_control(c) {
        lemma_code_unit(c);
        let h = hex4(c as nat);
        if e.len() == 6 {
            assert(s[2] == h[0] && s[3] == h[1] && s[4] == h[2] && s[5] == h[3]);
        }
    }
}

/// Whoever reads an escaped text back as a JSON string gets that text. So no
/// quote in it ends the string early and no control character is left bare.
pub proof fn law_escape_is_read_back(s: Seq<char>)
    ensures
        unescape(escape_text(s)) == Some(s),
    decreases s.len(),
{
    if s.len() > 0 {
        law_escape_is_read_back(s.drop_first());
        lemma_unescape_char(s[0], escape_text(s.drop_first()));
        assert(seq![s[0]] + s.drop_first() =~= s);
    }
}

/// No line break occurs.
pub open spec fn one_line(s: Seq<char>) -> bool {
    forall|i: int| 0 <= i < s.len() ==> #[trigger] s[i] != '\n' && s[i] != '\r'
}

/// An escaped character has no line break.
proof fn lemma_escape_char_line(c: char)
    ensures
        one_line(escape_char(c)),
{
    let e = escape_char(c);
    assert forall|i: int| 0 <= i < e.len() implies #[trigger] e[i] != '\n' && e[i] != '\r' by {
        if e.len() == 6 && i >= 2 {
            let h = hex4(c as nat);
            assert(e[i] == h[i - 2]);
        }
    }
}

/// An escaped text stands on one line.
pub proof fn law_escape_is_one_line(s: Seq<char>)
    ensures
        one_line(json_string(s)),
{
    lemma_escape_line(s);
}

/// An escaped text has no line break.
proof fn lemma_escape_line(s: Seq<char>)
    ensures
        one_line(escape_text(s)),
    decreases s.len(),
{
    if s.len() > 0 {
        lemma_escape_char_line(s[0]);
        lemma_escape_line(s.drop_first());
    }
}

/// The members for the first `n` tags have no line break.
proof fn lemma_members_line(m: Map<u16, Seq<char>>, n: nat)
    requires
        n <= 7,
    ensures
        one_line(json_members(m, n)),
    decreases n,
{
    if n > 0 {
        let tag = tags_by_name()[n - 1];
        lemma_members_line(m, (n - 1) as nat);
        if m.contains_key(tag) {
            law_escape_is_one_line(name_of(tag)->0);
            law_escape_is_one_line(m[tag]);
            assert(one_line(on_one_line(m[tag])));
            assert(one_line(json_value(m[tag], json_accepted(m[tag]))));
            assert(one_line(json_member(tag, m[tag])));
        }
    }
}

/// The metadata of an IFD is exported as one line, whatever the texts are.
pub proof fn law_json_is_one_line(m: Map<u16, Seq<char>>)
    ensures
        one_line(json_line(m)),
{
    lemma_members_line(m, 7);
}

/// A text that is JSON itself is exported as it is, but for its line breaks.
pub proof fn law_json_is_embedded(text: Seq<char>)
    ensures
        json_value(text, true).len() == text.len(),
        forall|i: int|
            0 <= i < text.len() ==> json_value(text, true)[i] == if #[trigger] text[i] == '\n'
                || text[i] == '\r' {
                ' '
            } else {
                text[i]
            },
        one_line(text) ==> json_value(text, true) == text,
{
    if one_line(text) {
        assert(on_one_line(text) =~= text);
    }
}

/// Two texts are the same up to index `k`, and there the first one has the
/// smaller character.
pub open spec fn precedes(a: Seq<char>, b: Seq<char>, k: int) -> bool {
    &&& 0 <= k < a.len()
    &&& k < b.len()
    &&& a.take(k) == b.take(k)
    &&& (a[k] as int) < (b[k] as int)
}

/// Lexicographic order of texts none of which begins with the other.
pub open spec fn comes_before(a: Seq<char>, b: Seq<char>) -> bool {
    exists|k: int| precedes(a, b, k)
}

/// The name of the member at index `i`.
pub open spec fn name_at(i: int) -> Seq<char> {
    name_of(tags_by_name()[i])->0
}

/// The members of an exported object come in the order of their names, and every
/// tag with a name has its turn.
pub proof fn law_members_in_name_order(tag: u16, i: int)
    ensures
        tags_by_name().contains(tag) <==> name_of(tag) is Some,
        0 <= i < tags_by_name().len() - 1 ==> comes_before(name_at(i), name_at(i + 1)),
{
    let tags = tags_by_name();
    reveal_strlit("Artist");
    reveal_strlit("Copyright");
    reveal_strlit("DateTime");
    reveal_strlit("ImageDescription");
    reveal_strlit("Make");
    reveal_strlit("Model");
    reveal_strlit("Software");
    assert(tags[0] == 315 && tags[1] == 33432 && tags[2] == 306 && tags[3] == 270 && tags[4] == 271
        && tags[5] == 272 && tags[6] == 305);
    if 0 <= i < tags.len() - 1 {
        let k: int = if i == 4 {
            1
        } else {
            0
        };
        assert(name_at(i).take(k) =~= name_at(i + 1).take(k));
        assert(precedes(name_at(i), name_at(i + 1), k));
    }
}

/// Characters stand for themselves in a JSON string, except quotes, backslashes and
/// control characters.
pub proof fn law_escape_char(c: char)
    ensures
        ({
            let e = escape_char(c);
            let v = c as int;
            &&& c == '"' ==> e == seq!['\\', '"']
            &&& c == '\\' ==> e == seq!['\\', '\\']
            &&& c == '\n' ==> e == seq!['\\', 'n']
            &&& c == '\r' ==> e == seq!['\\', 'r']
            &&& c == '\t' ==> e == seq!['\\', 't']
            &&& (v < 32 || 127 <= v < 160) && c != '\n' && c != '\r' && c != '\t' ==> e.len() == 6
                && e[0] == '\\' && e[1] == 'u' && e[2] == '0' && e[3] == '0' && digit_value(e[4])
                == Some((v / 16) as nat) && digit_value(e[5]) == Some((v % 16) as nat) && !('A'
                <= e[4] <= 'F') && !('A' <= e[5] <= 'F')
            &&& c != '"' && c != '\\' && (32 <= v < 127 || 160 <= v) ==> e == seq![c]
        }),
{
    let e = escape_char(c);
    let v = c as nat;
    if is_control(c) && e.len() == 6 {
        let h = hex4(v);
        assert(e[2] == h[0] && e[3] == h[1] && e[4] == h[2] && e[5] == h[3]);
        assert(v / 4096 % 16 == 0 && v / 256 % 16 == 0 && v / 16 % 16 == v / 16);
        lemma_digit_value(v / 16);
        lemma_digit_value(v % 16);
    }
}

/// Text is escaped character by character and put between quotes.
pub proof fn law_escape_text(a: Seq<char>, b: Seq<char>, c: char)
    ensures
        escape_text(a + b) == escape_text(a) + escape_text(b),
        escape_text(seq![c]) == escape_char(c),
        escape_text(Seq::empty()) == Seq::<char>::empty(),
        json_string(a) == seq!['"'] + escape_text(a) + seq!['"'],
    decreases a.len(),
{
    assert(seq![c].drop_first() =~= Seq::<char>::empty());
    assert(escape_text(seq![c]) =~= escape_char(c)) by {
        reveal_with_fuel(escape_text, 2);
    }
    if a.len() == 0 {
        assert(a + b =~= b);
        assert(escape_text(a) + escape_text(b) =~= escape_text(b));
    } else {
        law_escape_text(a.drop_first(), b, c);
        assert((a + b).drop_first() =~= a.drop_first() + b);
        assert(escape_text(a + b) =~= escape_text(a) + escape_text(b));
    }
}

/// Letters and digits need no escape.
proof fn lemma_plain(s: Seq<char>)
    requires
        forall|i: int|
            0 <= i < s.len() ==> 'A' <= (#[trigger] s[i]) <= 'Z' || 'a' <= s[i] <= 'z',
    ensures
        escape_text(s) == s,
    decreases s.len(),
{
    if s.len() > 0 {
        let rest = s.drop_first();
        assert forall|i: int| 0 <= i < rest.len() implies 'A' <= (#[trigger] rest[i]) <= 'Z'
            || 'a' <= rest[i] <= 'z' by {
            assert(rest[i] == s[i + 1]);
        }
        lemma_plain(rest);
        law_escape_char(s[0]);
        assert(seq![s[0]] + rest =~= s);
    }
}

/// Where the name of a tag comes in the alphabet.
pub open spec fn rank(tag: u16) -> int {
    if tag == 315 {
        0
    } else if tag == 33432 {
        1
    } else if tag == 306 {
        2
    } else if tag == 270 {
        3
    } else if tag == 271 {
        4
    } else if tag == 272 {
        5
    } else {
        6
    }
}

/// The names of tags are letters.
proof fn lemma_name_is_plain(tag: u16)
    requires
        is_descriptive(tag),
    ensures
        escape_text(name_of(tag)->0) == name_of(tag)->0,
{
    reveal_strlit("Artist");
    reveal_strlit("Copyright");
    reveal_strlit("DateTime");
    reveal_strlit("ImageDescription");
    reveal_strlit("Make");
    reveal_strlit("Model");
    reveal_strlit("Software");
    lemma_plain(name_of(tag)->0);
}

/// The members for a map with one more text, behind all others.
proof fn lemma_members_grow(m: Map<u16, Seq<char>>, tag: u16, text: Seq<char>, n: nat)
    requires
        n <= 7,
        is_descriptive(tag),
        forall|t: u16| #[trigger]
            m.contains_key(t) && is_descriptive(t) ==> rank(t) < rank(tag),
    ensures
        ({
            let more = m.insert(tag, text);
            let r = rank(tag) as nat;
            &&& n <= r ==> json_members(more, n) == json_members(m, n)
            &&& n > r ==> json_members(m, n) == json_members(m, r) && json_members(more, n)
                == if json_members(m, r).len() == 0 {
                json_member(tag, text)
            } else {
                json_members(m, r) + seq![','] + json_member(tag, text)
            }
        }),
    decreases n,
{
    if n > 0 {
        lemma_members_grow(m, tag, text, (n - 1) as nat);
        let t = tags_by_name()[n - 1];
        assert(is_descriptive(t) && rank(t) == n - 1);
        if t != tag && m.contains_key(t) {
            assert(rank(t) < rank(tag));
        }
    }
}

/// The JSON object of the metadata of an IFD is built member by member: without
/// metadata it is empty; a text whose name comes behind all others adds a comma,
/// unless it is the first, its name in quotes, a colon and its value. The value is
/// the text itself, on one line, if that is JSON, and else a JSON string.
#[verifier::spinoff_prover]
pub proof fn law_json_object(m: Map<u16, Seq<char>>, tag: u16, text: Seq<char>)
    requires
        is_descriptive(tag),
        forall|t: u16| #[trigger]
            m.contains_key(t) && is_descriptive(t) ==> rank(t) < rank(tag),
    ensures
        ({
            let before = json_line(m);
            let comma = if before.len() > 2 {
                seq![',']
            } else {
                Seq::<char>::empty()
            };
            let value = if json_accepted(text) {
                text.map_values(
                    |c: char|
                        if c == '\n' || c == '\r' {
                            ' '
                        } else {
                            c
                        },
                )
            } else {
                json_string(text)
            };
            &&& before.len() >= 2
            &&& json_line(m.insert(tag, text)) == before.drop_last() + comma + seq!['"']
                + name_of(tag)->0 + seq!['"', ':'] + value + seq!['}']
        }),
        json_line(Map::empty()) == seq!['{', '}'],
{
    let r = rank(tag) as nat;
    let members = json_members(m, 7);
    let member = json_member(tag, text);
    lemma_members_grow(m, tag, text, 7);
    lemma_name_is_plain(tag);
    let before = json_line(m);
    assert(before.drop_last() =~= seq!['{'] + members);
    let value = json_value(text, json_accepted(text));
    assert(on_one_line(text) =~= text.map_values(
        |c: char|
            if c == '\n' || c == '\r' {
                ' '
            } else {
                c
            },
    ));
    assert(member =~= seq!['"'] + name_of(tag)->0 + seq!['"', ':'] + value);
    let comma = if before.len() > 2 {
        seq![',']
    } else {
        Seq::<char>::empty()
    };
    assert(json_line(m.insert(tag, text)) =~= before.drop_last() + comma + seq!['"']
        + name_of(tag)->0 + seq!['"', ':'] + value + seq!['}']);
    lemma_no_members(7);
    assert(json_line(Map::empty()) =~= seq!['{', '}']);
}

/// Without texts there are no members.
proof fn lemma_no_members(n: nat)
    ensures
        json_members(Map::empty(), n) == Seq::<char>::empty(),
    decreases n,
{
    if n > 0 {
        lemma_no_members((n - 1) as nat);
    }
}

/// Texts under other tags are not exported.
pub proof fn law_only_descriptive_tags(m: Map<u16, Seq<char>>, tag: u16, text: Seq<char>)
    requires
        !is_descriptive(tag),
    ensures
        json_line(m.insert(tag, text)) == json_line(m),
{
    lemma_other_tag(m, tag, text, 7);
}

/// Texts under other tags make no members.
proof fn lemma_other_tag(m: Map<u16, Seq<char>>, tag: u16, text: Seq<char>, n: nat)
    requires
        n <= 7,
        !is_descriptive(tag),
    ensures
        json_members(m.insert(tag, text), n) == json_members(m, n),
    decreases n,
{
    if n > 0 {
        lemma_other_tag(m, tag, text, (n - 1) as nat);
        assert(is_descriptive(tags_by_name()[n - 1]));
    }
}

/// Given that a text is not JSON, it is exported as a JSON string.
pub proof fn law_text_is_quoted(text: Seq<char>)
    ensures
        json_value(text, false) == seq!['"'] + escape_text(text) + seq!['"'],
{
}

/// Codes are written with four hexadecimal digits in lower case, the highest first.
pub proof fn law_hex4(v: nat)
    ensures
        hex4(v).len() == 4,
        digit_value(hex4(v)[0]) == Some(v / 4096 % 16),
        digit_value(hex4(v)[1]) == Some(v / 256 % 16),
        digit_value(hex4(v)[2]) == Some(v / 16 % 16),
        digit_value(hex4(v)[3]) == Some(v % 16),
        forall|i: int| 0 <= i < 4 ==> !('A' <= #[trigger] hex4(v)[i] <= 'F'),
{
    lemma_digit_value(v / 4096 % 16);
    lemma_digit_value(v / 256 % 16);
    lemma_digit_value(v / 16 % 16);
    lemma_digit_value(v % 16);
}

} // verus!
