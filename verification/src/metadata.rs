//! Descriptive metadata: collecting it and writing it as JSON.
use std::collections::HashMap;
use vstd::prelude::*;
use vstd::utf8::{decode_utf8, valid_utf8};

use crate::entry::{entry_views, ASCII, Entry, IfdEntry};
use crate::error::Error;
use crate::reader::{value_data, BigTiffReader, Extent};
use crate::text::{chars_of, hex4, push_hex4};

verus! {

/// The name under which the value of a tag is exported, for the tags that hold
/// descriptive metadata.
pub open spec fn name_of(tag: u16) -> Option<Seq<char>> {
    if tag == 270 {
        Some("ImageDescription"@)
    } else if tag == 271 {
        Some("Make"@)
    } else if tag == 272 {
        Some("Model"@)
    } else if tag == 305 {
        Some("Software"@)
    } else if tag == 306 {
        Some("DateTime"@)
    } else if tag == 315 {
        Some("Artist"@)
    } else if tag == 33432 {
        Some("Copyright"@)
    } else {
        None
    }
}

/// The name under which the value of a tag is exported.
pub fn tag_name(tag: u16) -> (r: Option<&'static str>)
    ensures
        match r {
            Some(name) => name_of(tag) == Some(name@),
            None => name_of(tag) is None,
        },
{
    match tag {
        270 => Some("ImageDescription"),
        271 => Some("Make"),
        272 => Some("Model"),
        305 => Some("Software"),
        306 => Some("DateTime"),
        315 => Some("Artist"),
        33432 => Some("Copyright"),
        _ => None,
    }
}

/// Metadata of one IFD: text by tag.
pub struct Metadata {
    texts: HashMap<u16, String>,
}

impl View for Metadata {
    type V = Map<u16, Seq<char>>;

    closed spec fn view(&self) -> Map<u16, Seq<char>> {
        self.texts@.map_values(|text: String| text@)
    }
}

impl Metadata {
    /// No metadata.
    pub fn new() -> (m: Metadata)
        ensures
            m@ == Map::<u16, Seq<char>>::empty(),
    {
        let m = Metadata { texts: HashMap::new() };
        assert(m@ =~= Map::<u16, Seq<char>>::empty());
        m
    }

    /// Records the text of a tag, in place of an earlier one.
    pub fn insert(&mut self, tag: u16, text: String)
        ensures
            final(self)@ == old(self)@.insert(tag, text@),
    {
        broadcast use vstd::std_specs::hash::group_hash_axioms;

        self.texts.insert(tag, text);
        assert(self@ =~= old(self)@.insert(tag, text@));
    }

    /// The text of a tag.
    pub fn get(&self, tag: u16) -> (r: Option<&String>)
        ensures
            match r {
                Some(text) => self@.contains_key(tag) && self@[tag] == text@,
                None => !self@.contains_key(tag),
            },
    {
        broadcast use vstd::std_specs::hash::group_hash_axioms;

        self.texts.get(&tag)
    }
}

/// What `String::from_utf8_lossy` of std makes of bytes.
pub uninterp spec fn lossy_text(bytes: Seq<u8>) -> Seq<char>;

/// `String::from_utf8_lossy` of std: the text that the bytes encode where they
/// are valid UTF-8. For other bytes, where it puts replacement characters, the
/// result is only named.
#[verifier::external_body]
fn decode_lossy(data: &[u8]) -> (s: String)
    ensures
        s@ == lossy_text(data@),
        valid_utf8(data@) ==> s@ == decode_utf8(data@),
{
    String::from_utf8_lossy(data).into_owned()
}

/// Text without the zero characters at its end.
pub open spec fn trim_nul(s: Seq<char>) -> Seq<char>
    decreases s.len(),
{
    if s.len() > 0 && s.last() == '\0' {
        trim_nul(s.drop_last())
    } else {
        s
    }
}

/// Text without the zero characters at its end.
pub fn trim_terminator(text: &str) -> (r: String)
    ensures
        r@ == trim_nul(text@),
{
    let chars: Vec<char> = chars_of(text);
    let mut end: usize = chars.len();
    assert(chars@.take(end as int) =~= chars@);
    while end > 0 && chars[end - 1] == '\0'
        invariant
            end <= chars@.len(),
            trim_nul(chars@) == trim_nul(chars@.take(end as int)),
        decreases end,
    {
        assert(chars@.take(end as int).drop_last() =~= chars@.take(end - 1));
        end = end - 1;
    }
    let mut r: String = String::new();
    let mut i: usize = 0;
    while i < end
        invariant
            i <= end <= chars@.len(),
            r@ == chars@.take(i as int),
        decreases end - i,
    {
        r.push(chars[i]);
        i = i + 1;
        assert(r@ =~= chars@.take(i as int));
    }
    r
}

/// The metadata of an IFD: the texts of its entries that hold any.
pub open spec fn metadata_of(store: Seq<Extent>, entries: Seq<Entry>) -> Result<
    Map<u16, Seq<char>>,
    Error,
>
    decreases entries.len(),
{
    if entries.len() == 0 {
        Ok(Map::empty())
    } else {
        let e = entries.last();
        match metadata_of(store, entries.drop_last()) {
            Err(x) => Err(x),
            Ok(m) => if name_of(e.tag) is Some && e.typ == ASCII {
                match value_data(store, e) {
                    Err(x) => Err(x),
                    Ok(d) => {
                        let text = trim_nul(lossy_text(d));
                        if text.len() == 0 {
                            Ok(m)
                        } else {
                            Ok(m.insert(e.tag, text))
                        }
                    },
                }
            } else {
                Ok(m)
            },
        }
    }
}

/// If the entry holds metadata text that can be read and is valid UTF-8, it is
/// decoded to the characters that it encodes.
pub open spec fn decoded_as_is(store: Seq<Extent>, e: Entry) -> bool {
    name_of(e.tag) is Some && e.typ == ASCII ==> match value_data(store, e) {
        Ok(d) => valid_utf8(d) ==> lossy_text(d) == decode_utf8(d),
        Err(_) => true,
    }
}

/// Collects the metadata of an IFD.
pub fn extract_metadata(entries: &[IfdEntry], reader: &BigTiffReader) -> (r: Result<
    Metadata,
    Error,
>)
    ensures
        match r {
            Ok(m) => metadata_of(reader@, entry_views(entries@)) == Ok::<
                Map<u16, Seq<char>>,
                Error,
            >(m@),
            Err(e) => metadata_of(reader@, entry_views(entries@)) == Err::<
                Map<u16, Seq<char>>,
                Error,
            >(e),
        },
        r is Ok ==> forall|j: int|
            0 <= j < entries@.len() ==> #[trigger] decoded_as_is(reader@, entries@[j]@),
{
    let mut metadata: Metadata = Metadata::new();
    let mut i: usize = 0;
    let ghost views = entry_views(entries@);
    while i < entries.len()
        invariant
            i <= entries@.len(),
            views == entry_views(entries@),
            metadata_of(reader@, views.take(i as int)) == Ok::<Map<u16, Seq<char>>, Error>(
                metadata@,
            ),
            forall|j: int| 0 <= j < i ==> #[trigger] decoded_as_is(reader@, entries@[j]@),
        decreases entries@.len() - i,
    {
        let entry: &IfdEntry = &entries[i];
        proof {
            assert(views.take(i + 1).drop_last() =~= views.take(i as int));
            assert(views.take(i + 1).last() == entry@);
        }
        // Only text is exported.
        if tag_name(entry.tag).is_some() && entry.typ == ASCII {
            match reader.read_value_data(entry) {
                Ok(data) => {
                    let text: String = trim_terminator(decode_lossy(&data).as_str());
                    if !text.as_str().is_empty() {
                        metadata.insert(entry.tag, text);
                    }
                },
                Err(e) => {
                    proof {
                        lemma_metadata_stop(reader@, views, i + 1);
                    }
                    return Err(e);
                },
            }
        }
        i = i + 1;
    }
    assert(views.take(i as int) =~= views);
    Ok(metadata)
}

/// Collecting metadata stops at the first entry that cannot be read.
proof fn lemma_metadata_stop(store: Seq<Extent>, entries: Seq<Entry>, n: int)
    requires
        0 <= n <= entries.len(),
        metadata_of(store, entries.take(n)) is Err,
    ensures
        metadata_of(store, entries) == metadata_of(store, entries.take(n)),
    decreases entries.len() - n,
{
    if n < entries.len() {
        assert(entries.take(n + 1).drop_last() =~= entries.take(n));
        lemma_metadata_stop(store, entries, n + 1);
    } else {
        assert(entries.take(n) =~= entries);
    }
}

/// Whether a character is a control character: general category Cc of Unicode.
pub open spec fn is_control(c: char) -> bool {
    c as u32 <= 0x1f || 0x7f <= c as u32 <= 0x9f
}

/// How a character is written inside a JSON string.
pub open spec fn escape_char(c: char) -> Seq<char> {
    if c == '"' {
        seq!['\\', '"']
    } else if c == '\\' {
        seq!['\\', '\\']
    } else if c == '\n' {
        seq!['\\', 'n']
    } else if c == '\r' {
        seq!['\\', 'r']
    } else if c == '\t' {
        seq!['\\', 't']
    } else if is_control(c) {
        seq!['\\', 'u'] + hex4(c as nat)
    } else {
        seq![c]
    }
}

/// How text is written inside a JSON string.
pub open spec fn escape_text(s: Seq<char>) -> Seq<char>
    decreases s.len(),
{
    if s.len() == 0 {
        Seq::empty()
    } else {
        escape_char(s[0]) + escape_text(s.drop_first())
    }
}

/// Text as a JSON string.
pub open spec fn json_string(s: Seq<char>) -> Seq<char> {
    seq!['"'] + escape_text(s) + seq!['"']
}

/// Appends a character as it is written inside a JSON string.
fn push_escaped(result: &mut String, c: char)
    ensures
        final(result)@ == old(result)@ + escape_char(c),
{
    let ghost before = result@;
    let code: u32 = c as u32;
    if c == '"' {
        result.push('\\');
        result.push('"');
    } else if c == '\\' {
        result.push('\\');
        result.push('\\');
    } else if c == '\n' {
        result.push('\\');
        result.push('n');
    } else if c == '\r' {
        result.push('\\');
        result.push('r');
    } else if c == '\t' {
        result.push('\\');
        result.push('t');
    } else if code <= 0x1f || (0x7f <= code && code <= 0x9f) {
        result.push('\\');
        result.push('u');
        push_hex4(result, code);
    } else {
        result.push(c);
    }
    assert(result@ =~= before + escape_char(c));
}

/// Text as a JSON string.
pub fn escape_json_string(s: &str) -> (r: String)
    ensures
        r@ == json_string(s@),
{
    let chars: Vec<char> = chars_of(s);
    let mut result: String = String::new();
    result.push('"');
    let mut i: usize = 0;
    assert(chars@.skip(0) =~= chars@);
    assert(seq!['"'] + escape_text(s@) =~= result@ + escape_text(chars@.skip(0)));
    while i < chars.len()
        invariant
            i <= chars@.len(),
            chars@ == s@,
            result@ + escape_text(chars@.skip(i as int)) == seq!['"'] + escape_text(s@),
        decreases chars@.len() - i,
    {
        let ghost before = result@;
        let ghost rest = chars@.skip(i as int);
        let c: char = chars[i];
        push_escaped(&mut result, c);
        i = i + 1;
        proof {
            assert(rest[0] == c);
            assert(rest.drop_first() =~= chars@.skip(i as int));
            assert(result@ + escape_text(chars@.skip(i as int)) =~= before + escape_text(rest));
        }
    }
    result.push('"');
    proof {
        assert(chars@.skip(i as int) =~= Seq::<char>::empty());
        assert(result@ =~= json_string(s@));
    }
    result
}

/// Whether simd_json takes a text for a JSON document.
pub uninterp spec fn json_accepted(text: Seq<char>) -> bool;

/// `simd_json::from_slice` into `simd_json::OwnedValue`: whether the parser
/// accepts the bytes of the text. The grammar is not spelled out; the answer is
/// only named.
#[verifier::external_body]
pub(crate) fn is_valid_json(s: &str) -> (r: bool)
    ensures
        r == json_accepted(s@),
{
    let mut bytes = s.as_bytes().to_vec();
    simd_json::from_slice::<simd_json::OwnedValue>(&mut bytes).is_ok()
}

/// A blank in place of a line break, any other character as it is.
pub open spec fn blank_break(c: char) -> char {
    if c == '\n' || c == '\r' {
        ' '
    } else {
        c
    }
}

/// Text with a blank in place of each line break.
pub open spec fn on_one_line(text: Seq<char>) -> Seq<char> {
    text.map_values(|c: char| blank_break(c))
}

/// A metadata text as a JSON value: itself where it already is JSON, else as a
/// JSON string. Line breaks in JSON stand only between tokens, where a blank means
/// the same; with blanks in their place the value stays on its line.
pub open spec fn json_value(text: Seq<char>, valid: bool) -> Seq<char> {
    if valid {
        on_one_line(text)
    } else {
        json_string(text)
    }
}

/// Text with a blank in place of each line break.
pub fn join_lines(text: &str) -> (r: String)
    ensures
        r@ == on_one_line(text@),
{
    let chars: Vec<char> = chars_of(text);
    let mut r: String = String::new();
    let mut i: usize = 0;
    assert(r@ =~= on_one_line(chars@.take(0)));
    while i < chars.len()
        invariant
            i <= chars@.len(),
            r@ == on_one_line(chars@.take(i as int)),
        decreases chars@.len() - i,
    {
        let c: char = chars[i];
        if c == '\n' || c == '\r' {
            r.push(' ');
        } else {
            r.push(c);
        }
        i = i + 1;
        assert(r@ =~= on_one_line(chars@.take(i as int)));
    }
    assert(chars@.take(i as int) =~= chars@);
    r
}

/// A metadata text as a JSON value, given whether it already is JSON.
pub fn metadata_value(text: &str, valid: bool) -> (r: String)
    ensures
        r@ == json_value(text@, valid),
{
    if valid {
        join_lines(text)
    } else {
        escape_json_string(text)
    }
}

/// The tags of metadata in the order of their names.
pub open spec fn tags_by_name() -> Seq<u16> {
    seq![315u16, 33432, 306, 270, 271, 272, 305]
}

/// One member of the JSON object.
pub open spec fn json_member(tag: u16, text: Seq<char>) -> Seq<char> {
    json_string(name_of(tag)->0) + seq![':'] + json_value(text, json_accepted(text))
}

/// The members for the first `n` tags that have a text, with commas between them.
pub open spec fn json_members(m: Map<u16, Seq<char>>, n: nat) -> Seq<char>
    decreases n,
{
    if n == 0 {
        Seq::empty()
    } else {
        let front = json_members(m, (n - 1) as nat);
        let tag = tags_by_name()[n - 1];
        if !m.contains_key(tag) {
            front
        } else if front.len() == 0 {
            json_member(tag, m[tag])
        } else {
            front + seq![','] + json_member(tag, m[tag])
        }
    }
}

/// The metadata of one IFD as a JSON object.
pub open spec fn json_line(m: Map<u16, Seq<char>>) -> Seq<char> {
    seq!['{'] + json_members(m, 7) + seq!['}']
}

/// The metadata of one IFD as a JSON object on one line, its members in the order
/// of their names.
pub fn metadata_to_json_line(metadata: &Metadata) -> (r: String)
    ensures
        r@ == json_line(metadata@),
{
    let tags: [u16; 7] = [315, 33432, 306, 270, 271, 272, 305];
    let mut line: String = String::new();
    line.push('{');
    let mut first: bool = true;
    let mut i: usize = 0;
    assert(tags@ =~= tags_by_name());
    assert(line@ =~= seq!['{'] + json_members(metadata@, 0));
    while i < 7
        invariant
            i <= 7,
            tags@ == tags_by_name(),
            line@ == seq!['{'] + json_members(metadata@, i as nat),
            first == (json_members(metadata@, i as nat).len() == 0),
        decreases 7 - i,
    {
        let ghost before = line@;
        let tag: u16 = tags[i];
        match metadata.get(tag) {
            Some(text) => {
                let name: &str = match tag_name(tag) {
                    Some(n) => n,
                    None => "",
                };
                if !first {
                    line.push(',');
                }
                let key: String = escape_json_string(name);
                let value: String = metadata_value(text.as_str(), is_valid_json(text.as_str()));
                line.append(key.as_str());
                line.push(':');
                line.append(value.as_str());
                first = false;
                proof {
                    let member = json_member(tag, metadata@[tag]);
                    assert(member.len() > 0);
                    assert(line@ =~= seq!['{'] + json_members(metadata@, (i + 1) as nat));
                }
            },
            None => {},
        }
        i = i + 1;
    }
    line.push('}');
    assert(line@ =~= json_line(metadata@));
    line
}

/// Whether a tag holds descriptive metadata.
pub open spec fn is_descriptive(tag: u16) -> bool {
    tag == 270 || tag == 271 || tag == 272 || tag == 305 || tag == 306 || tag == 315 || tag
        == 33432
}

/// The tags of descriptive metadata have the names that TIFF gives them; no other
/// tag has one.
pub proof fn law_names_of_tags(tag: u16)
    ensures
        name_of(tag) is Some <==> is_descriptive(tag),
        name_of(270) == Some("ImageDescription"@),
        name_of(271) == Some("Make"@),
        name_of(272) == Some("Model"@),
        name_of(305) == Some("Software"@),
        name_of(306) == Some("DateTime"@),
        name_of(315) == Some("Artist"@),
        name_of(33432) == Some("Copyright"@),
{
}

/// Trimming takes away zero characters at the end, all of them and nothing else.
pub proof fn law_trim(s: Seq<char>)
    ensures
        trim_nul(s).len() <= s.len(),
        trim_nul(s) == s.take(trim_nul(s).len() as int),
        forall|i: int| trim_nul(s).len() <= i < s.len() ==> #[trigger] s[i] == '\0',
        trim_nul(s).len() > 0 ==> trim_nul(s).last() != '\0',
    decreases s.len(),
{
    if s.len() > 0 && s.last() == '\0' {
        let front = s.drop_last();
        law_trim(front);
        assert(front.take(trim_nul(s).len() as int) =~= s.take(trim_nul(s).len() as int));
        assert forall|i: int| trim_nul(s).len() <= i < s.len() implies #[trigger] s[i] == '\0' by {
            if i < front.len() {
                assert(front[i] == s[i]);
            }
        }
    } else {
        assert(s.take(s.len() as int) =~= s);
    }
}

/// The entry is text under a metadata tag, and something is left of it when its
/// terminator is gone.
pub open spec fn holds_text(store: Seq<Extent>, e: Entry) -> bool {
    is_descriptive(e.tag) && e.typ == 2 && trim_nul(lossy_text(value_data(store, e)->Ok_0)).len()
        > 0
}

/// The metadata of an IFD has a text for exactly the tags under which it holds one:
/// that of the last such entry.
pub proof fn law_metadata(store: Seq<Extent>, entries: Seq<Entry>, tag: u16, k: int)
    requires
        metadata_of(store, entries) is Ok,
    ensures
        ({
            let m = metadata_of(store, entries)->Ok_0;
            &&& 0 <= k < entries.len() && entries[k].tag == tag && holds_text(store, entries[k])
                && (forall|l: int|
                k < l < entries.len() ==> (#[trigger] entries[l]).tag != tag || !holds_text(
                    store,
                    entries[l],
                )) ==> m.contains_key(tag) && m[tag] == trim_nul(
                lossy_text(value_data(store, entries[k])->Ok_0),
            )
            &&& (forall|l: int|
                0 <= l < entries.len() ==> (#[trigger] entries[l]).tag != tag || !holds_text(
                    store,
                    entries[l],
                )) ==> !m.contains_key(tag)
        }),
    decreases entries.len(),
{
    if entries.len() > 0 {
        let front = entries.drop_last();
        assert(entries.last() == entries[entries.len() - 1]);
        assert forall|l: int| 0 <= l < front.len() implies #[trigger] front[l] == entries[l] by {}
        law_metadata(store, front, tag, k);
    }
}

/// Metadata can be collected if and only if all of its texts can be read.
pub proof fn law_metadata_readable(store: Seq<Extent>, entries: Seq<Entry>)
    ensures
        metadata_of(store, entries) is Ok <==> forall|l: int|
            0 <= l < entries.len() && is_descriptive((#[trigger] entries[l]).tag) && entries[l].typ
                == 2 ==> value_data(store, entries[l]) is Ok,
    decreases entries.len(),
{
    if entries.len() > 0 {
        let front = entries.drop_last();
        law_metadata_readable(store, front);
        assert(entries.last() == entries[entries.len() - 1]);
        assert forall|l: int| 0 <= l < front.len() implies #[trigger] front[l] == entries[l] by {}
        if metadata_of(store, entries) is Ok {
            assert forall|l: int|
                0 <= l < entries.len() && is_descriptive((#[trigger] entries[l]).tag)
                    && entries[l].typ == 2 implies value_data(store, entries[l]) is Ok by {
                if l < front.len() {
                    assert(front[l] == entries[l]);
                }
            }
        } else if metadata_of(store, front) is Err {
            let l = choose|l: int|
                0 <= l < front.len() && is_descriptive((#[trigger] front[l]).tag) && front[l].typ
                    == 2 && value_data(store, front[l]) is Err;
            assert(entries[l] == front[l]);
        }
    }
}

} // verus!
