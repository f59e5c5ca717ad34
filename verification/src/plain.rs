//! Objects written plainly: one key whose value is an object of strings, on one line, without
//! blanks and without escapes.

use crate::json::Json;
use crate::text::{chars_of, same_text, text_of};
use vstd::prelude::*;

verus! {

/// A character that stands for itself between quotes.
pub open spec fn plain_char(c: char) -> bool {
    c != '"' && c != '\\' && c as u32 >= 0x20
}

/// A text whose characters all stand for themselves between quotes.
pub open spec fn plain_text(text: Seq<char>) -> bool {
    forall|i: int| 0 <= i < text.len() ==> plain_char(#[trigger] text[i])
}

/// The member with a key stands at `i`.
pub open spec fn member_at(members: Seq<(Seq<char>, Seq<char>)>, key: Seq<char>, i: int) -> bool {
    0 <= i < members.len() && members[i].0 == key
}

/// Some member has the key.
pub open spec fn has_member(members: Seq<(Seq<char>, Seq<char>)>, key: Seq<char>) -> bool {
    exists|i: int| member_at(members, key, i)
}

/// No two members have the same key.
pub open spec fn members_differ(members: Seq<(Seq<char>, Seq<char>)>) -> bool {
    forall|i: int, j: int|
        0 <= i < j < members.len() ==> (#[trigger] members[i]).0 != (#[trigger] members[j]).0
}

/// The object that the members make.
pub open spec fn members_json(members: Seq<(Seq<char>, Seq<char>)>) -> Map<Seq<char>, Json> {
    Map::new(
        |key: Seq<char>| has_member(members, key),
        |key: Seq<char>| Json::String(members[choose|i: int| member_at(members, key, i)].1),
    )
}

/// A member as it is written.
pub open spec fn member_text(member: (Seq<char>, Seq<char>)) -> Seq<char> {
    "\""@ + member.0 + "\":\""@ + member.1 + "\""@
}

/// The members from `i` on as they are written, with the braces behind them.
pub open spec fn members_text(members: Seq<(Seq<char>, Seq<char>)>, i: int) -> Seq<char>
    decreases members.len() - i,
{
    if i >= members.len() {
        "}}"@
    } else if i == members.len() - 1 {
        member_text(members[i]) + "}}"@
    } else {
        member_text(members[i]) + ","@ + members_text(members, i + 1)
    }
}

/// An object with one key, whose value is an object of strings.
pub struct PlainObject {
    pub key: Seq<char>,
    pub members: Seq<(Seq<char>, Seq<char>)>,
}

impl PlainObject {
    /// All its texts stand for themselves between quotes, and no key occurs twice.
    pub open spec fn wf(self) -> bool {
        &&& plain_text(self.key)
        &&& forall|i: int|
            0 <= i < self.members.len() ==> plain_text((#[trigger] self.members[i]).0)
                && plain_text(self.members[i].1)
        &&& members_differ(self.members)
    }

    /// The object as it is written.
    pub open spec fn text(self) -> Seq<char> {
        "{\""@ + self.key + "\":{"@ + members_text(self.members, 0)
    }

    /// What the object holds.
    pub open spec fn object(self) -> Map<Seq<char>, Json> {
        Map::<Seq<char>, Json>::empty().insert(self.key, Json::Object(members_json(self.members)))
    }
}

/// The text writes the object plainly.
pub open spec fn writes(text: Seq<char>, form: PlainObject) -> bool {
    form.wf() && form.text() == text
}

/// The object that a text writes plainly, if it does.
pub open spec fn plain_form(text: Seq<char>) -> Option<PlainObject> {
    if exists|form: PlainObject| writes(text, form) {
        Some(choose|form: PlainObject| writes(text, form))
    } else {
        None
    }
}

/// The object that a byte string writes plainly in UTF-8, if it does.
pub open spec fn plain_object(bytes: Seq<u8>) -> Option<PlainObject> {
    match text_of(bytes) {
        Some(text) => plain_form(text),
        None => None,
    }
}

/// Where the quote stands that ends a plain text, which begins at `pos`.
pub open spec fn string_end(text: Seq<char>, pos: int) -> Option<int>
    decreases text.len() - pos,
{
    if pos < 0 || pos >= text.len() {
        None
    } else if text[pos] == '"' {
        Some(pos)
    } else if plain_char(text[pos]) {
        string_end(text, pos + 1)
    } else {
        None
    }
}

/// What ends at a quote is plain.
pub proof fn lemma_string_end(text: Seq<char>, pos: int)
    ensures
        string_end(text, pos) matches Some(end) ==> {
            &&& 0 <= pos <= end < text.len()
            &&& text[end] == '"'
            &&& plain_text(text.subrange(pos, end))
        },
    decreases text.len() - pos,
{
    if 0 <= pos < text.len() && text[pos] != '"' && plain_char(text[pos]) {
        lemma_string_end(text, pos + 1);
        if let Some(end) = string_end(text, pos + 1) {
            let rest = text.subrange(pos + 1, end);
            assert forall|i: int| 0 <= i < end - pos implies plain_char(
                #[trigger] text.subrange(pos, end)[i],
            ) by {
                if i > 0 {
                    assert(rest[i - 1] == text[pos + i]);
                }
            }
        }
    }
}

/// A plain text up to a quote ends there.
proof fn lemma_string_ends(text: Seq<char>, pos: int, end: int)
    requires
        0 <= pos <= end < text.len(),
        text[end] == '"',
        plain_text(text.subrange(pos, end)),
    ensures
        string_end(text, pos) == Some(end),
    decreases end - pos,
{
    if pos < end {
        let here = text.subrange(pos, end);
        assert(plain_char(here[0]));
        let rest = text.subrange(pos + 1, end);
        assert forall|i: int| 0 <= i < rest.len() implies plain_char(#[trigger] rest[i]) by {
            assert(here[i + 1] == rest[i]);
        }
        lemma_string_ends(text, pos + 1, end);
    }
}

/// Where the key and the value of the member that begins at `pos` end.
pub open spec fn member_ends(text: Seq<char>, pos: int) -> Option<(int, int)> {
    if 0 <= pos < text.len() && text[pos] == '"' {
        match string_end(text, pos + 1) {
            Some(key) => if key + 2 < text.len() && text[key + 1] == ':' && text[key + 2] == '"' {
                match string_end(text, key + 3) {
                    Some(value) => Some((key, value)),
                    None => None,
                }
            } else {
                None
            },
            None => None,
        }
    } else {
        None
    }
}

/// The text ends with two braces at `pos`.
pub open spec fn closes_at(text: Seq<char>, pos: int) -> bool {
    pos + 2 == text.len() && text[pos] == '}' && text[pos + 1] == '}'
}

/// The members that are written from `pos` on, behind those before it.
pub open spec fn members_from(
    text: Seq<char>,
    pos: int,
    before: Seq<(Seq<char>, Seq<char>)>,
) -> Option<Seq<(Seq<char>, Seq<char>)>>
    decreases text.len() - pos,
{
    match member_ends(text, pos) {
        Some((key, value)) => {
            let more = before.push((text.subrange(pos + 1, key), text.subrange(key + 3, value)));
            if value + 1 < text.len() && text[value + 1] == ',' {
                proof {
                    lemma_string_end(text, pos + 1);
                    lemma_string_end(text, key + 3);
                }
                members_from(text, value + 2, more)
            } else if closes_at(text, value + 1) {
                Some(more)
            } else {
                None
            }
        },
        None => None,
    }
}

/// The key and the members that a text writes, whether or not the members differ.
pub open spec fn parts_of(text: Seq<char>) -> Option<PlainObject> {
    if text.len() >= 2 && text[0] == '{' && text[1] == '"' {
        match string_end(text, 2) {
            Some(end) => if end + 2 < text.len() && text[end + 1] == ':' && text[end + 2] == '{' {
                let key = text.subrange(2, end);
                if closes_at(text, end + 3) {
                    Some(PlainObject { key, members: Seq::empty() })
                } else {
                    match members_from(text, end + 3, Seq::empty()) {
                        Some(members) => Some(PlainObject { key, members }),
                        None => None,
                    }
                }
            } else {
                None
            },
            None => None,
        }
    } else {
        None
    }
}

/// What is known of a text from where one of its parts stands in it.
proof fn lemma_part(text: Seq<char>, pos: int, part: Seq<char>, rest: Seq<char>)
    requires
        0 <= pos <= text.len(),
        text.skip(pos) == part + rest,
    ensures
        pos + part.len() <= text.len(),
        text.subrange(pos, pos + part.len()) == part,
        text.skip(pos + part.len()) == rest,
{
    let tail = text.skip(pos);
    assert(tail.len() == text.len() - pos);
    assert forall|i: int| 0 <= i < part.len() implies text[pos + i] == part[i] by {
        assert(tail[i] == text[pos + i]);
    }
    assert(text.subrange(pos, pos + part.len()) =~= part);
    assert forall|i: int| 0 <= i < rest.len() implies text[pos + part.len() + i] == rest[i] by {
        assert(tail[part.len() + i] == text[pos + part.len() + i]);
    }
    assert(text.skip(pos + part.len()) =~= rest);
}

/// A member that is written at `pos` is read there.
proof fn lemma_member_read(
    text: Seq<char>,
    pos: int,
    member: (Seq<char>, Seq<char>),
    rest: Seq<char>,
)
    requires
        0 <= pos <= text.len(),
        text.skip(pos) == member_text(member) + rest,
        plain_text(member.0),
        plain_text(member.1),
    ensures
        ({
            let key = pos + 1 + member.0.len();
            let value = key + 3 + member.1.len();
            &&& member_ends(text, pos) == Some((key, value))
            &&& text.subrange(pos + 1, key) == member.0
            &&& text.subrange(key + 3, value) == member.1
            &&& value + 1 <= text.len()
            &&& text.skip(value + 1) == rest
        }),
{
    reveal_strlit("\"");
    reveal_strlit("\":\"");
    let written = member_text(member);
    let n = member.0.len() as int;
    let key = pos + 1 + n;
    let value = key + 3 + member.1.len();
    lemma_part(text, pos, written, rest);
    let here = text.subrange(pos, pos + written.len());
    assert forall|i: int| 0 <= i < written.len() implies text[pos + i] == written[i] by {
        assert(here[i] == text[pos + i]);
    }
    assert(written.len() == n + 5 + member.1.len());
    assert(written[0] == '"');
    assert(written[n + 1] == '"' && written[n + 2] == ':' && written[n + 3] == '"');
    assert(written[n + 4 + member.1.len()] == '"');
    assert forall|i: int| 0 <= i < n implies text[pos + 1 + i] == member.0[i] by {
        assert(written[1 + i] == member.0[i]);
        assert(text[pos + (1 + i)] == written[1 + i]);
    }
    assert forall|i: int| 0 <= i < member.1.len() implies text[key + 3 + i] == member.1[i] by {
        assert(written[n + 4 + i] == member.1[i]);
        assert(text[pos + (n + 4 + i)] == written[n + 4 + i]);
    }
    assert(text.subrange(pos + 1, key) =~= member.0);
    assert(text.subrange(key + 3, value) =~= member.1);
    assert(text[pos + 0] == '"' && text[pos + (n + 1)] == '"' && text[pos + (n + 2)] == ':' && text[pos
        + (n + 3)] == '"' && text[pos + (n + 4 + member.1.len())] == '"');
    lemma_string_ends(text, pos + 1, key);
    lemma_string_ends(text, key + 3, value);
}

/// Members that are written from `pos` on are read there.
proof fn lemma_members_read(
    text: Seq<char>,
    pos: int,
    members: Seq<(Seq<char>, Seq<char>)>,
    i: int,
)
    requires
        0 <= pos <= text.len(),
        0 <= i < members.len(),
        forall|j: int|
            0 <= j < members.len() ==> plain_text((#[trigger] members[j]).0) && plain_text(
                members[j].1,
            ),
        text.skip(pos) == members_text(members, i),
    ensures
        members_from(text, pos, members.take(i)) == Some(members),
    decreases members.len() - i,
{
    reveal_strlit("}}");
    reveal_strlit(",");
    let member = members[i];
    let value = pos + 4 + member.0.len() + member.1.len();
    if i == members.len() - 1 {
        lemma_member_read(text, pos, member, "}}"@);
        assert(text.skip(value + 1)[0] == '}' && text.skip(value + 1)[1] == '}');
        assert(members.take(i).push(member) =~= members);
    } else {
        let rest = members_text(members, i + 1);
        assert(text.skip(pos) =~= member_text(member) + (","@ + rest));
        lemma_member_read(text, pos, member, ","@ + rest);
        assert(text.skip(value + 1)[0] == ',');
        lemma_part(text, value + 1, ","@, rest);
        assert(members.take(i).push(member) =~= members.take(i + 1));
        lemma_members_read(text, value + 2, members, i + 1);
    }
}

/// What is read from `pos` on is what is written there.
proof fn lemma_members_written(text: Seq<char>, pos: int, before: Seq<(Seq<char>, Seq<char>)>)
    requires
        0 <= pos <= text.len(),
    ensures
        members_from(text, pos, before) matches Some(members) ==> {
            &&& before.len() < members.len()
            &&& members.take(before.len() as int) == before
            &&& text.skip(pos) == members_text(members, before.len() as int)
            &&& forall|j: int|
                before.len() <= j < members.len() ==> plain_text((#[trigger] members[j]).0)
                    && plain_text(members[j].1)
        },
    decreases text.len() - pos,
{
    if let Some((key, value)) = member_ends(text, pos) {
        reveal_strlit("\"");
        reveal_strlit("\":\"");
        reveal_strlit("}}");
        reveal_strlit(",");
        lemma_string_end(text, pos + 1);
        lemma_string_end(text, key + 3);
        let member = (text.subrange(pos + 1, key), text.subrange(key + 3, value));
        let more = before.push(member);
        let n = before.len() as int;
        assert(text.subrange(pos, value + 1) =~= member_text(member));
        assert(text.skip(pos) =~= text.subrange(pos, value + 1) + text.skip(value + 1));
        if value + 1 < text.len() && text[value + 1] == ',' {
            lemma_members_written(text, value + 2, more);
            if let Some(members) = members_from(text, value + 2, more) {
                assert(members[n] == members.take(more.len() as int)[n]);
                assert(members.take(n) =~= members.take(more.len() as int).take(n));
                assert(more.take(n) =~= before);
                assert(text.skip(value + 1) =~= ","@ + text.skip(value + 2));
                assert(text.skip(pos) =~= member_text(member) + ","@ + members_text(
                    members,
                    n + 1,
                ));
            }
        } else if closes_at(text, value + 1) {
            assert(text.skip(value + 1) =~= "}}"@);
            assert(more.take(n) =~= before);
        }
    }
}

/// What a text writes plainly is read in it.
proof fn lemma_written_is_read(text: Seq<char>, form: PlainObject)
    requires
        writes(text, form),
    ensures
        parts_of(text) == Some(form),
{
    reveal_strlit("{\"");
    reveal_strlit("\":{");
    reveal_strlit("\"");
    reveal_strlit("}}");
    let n = form.key.len() as int;
    let tail = members_text(form.members, 0);
    assert(text.len() == n + 5 + tail.len());
    assert(text[0] == '{' && text[1] == '"' && text[n + 2] == '"' && text[n + 3] == ':' && text[n
        + 4] == '{');
    assert(text.subrange(2, n + 2) =~= form.key);
    lemma_string_ends(text, 2, n + 2);
    assert(text.skip(n + 5) =~= tail);
    assert forall|i: int| 0 <= i < tail.len() implies text[n + 5 + i] == #[trigger] tail[i] by {
        assert(text.skip(n + 5)[i] == text[n + 5 + i]);
    }
    if form.members.len() == 0 {
        assert(tail[0] == '}' && tail[1] == '}');
        assert(form.members =~= Seq::empty());
    } else {
        assert(tail[0] == '"') by {
            assert(member_text(form.members[0])[0] == '"');
        }
        lemma_members_read(text, n + 5, form.members, 0);
        assert(form.members.take(0) =~= Seq::empty());
    }
}

/// What is read in a text is written in it.
proof fn lemma_read_is_written(text: Seq<char>)
    ensures
        parts_of(text) matches Some(form) ==> form.text() == text && (members_differ(form.members)
            ==> form.wf()),
{
    if let Some(form) = parts_of(text) {
        reveal_strlit("{\"");
        reveal_strlit("\":{");
        reveal_strlit("}}");
        let end = string_end(text, 2)->0;
        lemma_string_end(text, 2);
        if closes_at(text, end + 3) {
            assert(members_text(form.members, 0) == "}}"@);
        } else {
            lemma_members_written(text, end + 3, Seq::empty());
        }
        assert(text.skip(end + 3) =~= members_text(form.members, 0));
        assert forall|i: int| end + 3 <= i < text.len() implies text[i] == members_text(
            form.members,
            0,
        )[i - end - 3] by {
            assert(text.skip(end + 3)[i - end - 3] == text[i]);
        }
        assert(form.text() =~= text);
    }
}

/// The object that a text writes plainly is the one that is read in it from left to right.
pub proof fn lemma_plain_form(text: Seq<char>)
    ensures
        plain_form(text) == match parts_of(text) {
            Some(form) => if members_differ(form.members) {
                Some(form)
            } else {
                None
            },
            None => None,
        },
{
    lemma_read_is_written(text);
    if let Some(form) = parts_of(text) {
        if members_differ(form.members) {
            assert(writes(text, form));
        }
    }
    if exists|form: PlainObject| writes(text, form) {
        let form = choose|form: PlainObject| writes(text, form);
        lemma_written_is_read(text, form);
    }
}

/// A text that writes an object plainly writes no other one.
pub proof fn law_plain_form_is_unique(form: PlainObject)
    requires
        form.wf(),
    ensures
        plain_form(form.text()) == Some(form),
{
    assert(writes(form.text(), form));
    lemma_written_is_read(form.text(), form);
    lemma_plain_form(form.text());
}

/// What a list of members reads.
pub open spec fn members_view(members: Seq<(&str, &str)>) -> Seq<(Seq<char>, Seq<char>)> {
    members.map_values(|member: (&str, &str)| (member.0@, member.1@))
}

/// What a key and its members read.
pub open spec fn parts_view(parts: Option<(&str, Vec<(&str, &str)>)>) -> Option<PlainObject> {
    match parts {
        Some((key, members)) => Some(PlainObject { key: key@, members: members_view(members@) }),
        None => None,
    }
}

fn find_end(chars: &Vec<char>, pos: usize) -> (result: Option<usize>)
    ensures
        match result {
            Some(end) => string_end(chars@, pos as int) == Some(end as int) && pos <= end
                < chars@.len(),
            None => string_end(chars@, pos as int) is None,
        },
{
    let mut at: usize = pos;
    while at < chars.len()
        invariant
            pos <= at,
            string_end(chars@, pos as int) == string_end(chars@, at as int),
        decreases chars.len() - at,
    {
        let c: char = chars[at];
        if c == '"' {
            return Some(at);
        }
        if c == '\\' || (c as u32) < 0x20 {
            return None;
        }
        at += 1;
    }
    None
}

fn find_member_ends(chars: &Vec<char>, pos: usize) -> (result: Option<(usize, usize)>)
    ensures
        match result {
            Some((key, value)) => {
                &&& member_ends(chars@, pos as int) == Some((key as int, value as int))
                &&& pos < key
                &&& key + 3 <= value < chars@.len()
            },
            None => member_ends(chars@, pos as int) is None,
        },
{
    if pos >= chars.len() || chars[pos] != '"' {
        return None;
    }
    match find_end(chars, pos + 1) {
        Some(key) => if key < chars.len() - 1 && key < chars.len() - 2 && chars[key + 1] == ':'
            && chars[key + 2] == '"' {
            match find_end(chars, key + 3) {
                Some(value) => Some((key, value)),
                None => None,
            }
        } else {
            None
        },
        None => None,
    }
}

fn closes(chars: &Vec<char>, pos: usize) -> (result: bool)
    requires
        pos <= chars@.len(),
    ensures
        result == closes_at(chars@, pos as int),
{
    chars.len() - pos == 2 && chars[pos] == '}' && chars[pos + 1] == '}'
}

fn read_members<'a>(text: &'a str, chars: &Vec<char>, from: usize) -> (result: Option<
    Vec<(&'a str, &'a str)>,
>)
    requires
        chars@ == text@,
        from <= chars@.len(),
    ensures
        match result {
            Some(members) => members_from(text@, from as int, Seq::empty()) == Some(
                members_view(members@),
            ),
            None => members_from(text@, from as int, Seq::empty()) is None,
        },
{
    let mut members: Vec<(&'a str, &'a str)> = Vec::new();
    let mut pos: usize = from;
    assert(members_view(members@) =~= Seq::empty());
    loop
        invariant
            chars@ == text@,
            pos <= chars@.len(),
            members_from(text@, from as int, Seq::empty()) == members_from(
                text@,
                pos as int,
                members_view(members@),
            ),
        decreases chars.len() - pos,
    {
        let ghost before = members_view(members@);
        match find_member_ends(chars, pos) {
            Some((key, value)) => {
                let member = (
                    text.substring_char(pos + 1, key),
                    text.substring_char(key + 3, value),
                );
                members.push(member);
                assert(members_view(members@) =~= before.push((member.0@, member.1@)));
                let behind: usize = value + 1;
                if behind < chars.len() && chars[behind] == ',' {
                    pos = behind + 1;
                } else if closes(chars, behind) {
                    return Some(members);
                } else {
                    return None;
                }
            },
            None => {
                return None;
            },
        }
    }
}

fn differ(members: &Vec<(&str, &str)>) -> (result: bool)
    ensures
        result == members_differ(members_view(members@)),
{
    let ghost all = members_view(members@);
    let mut j: usize = 0;
    while j < members.len()
        invariant
            j <= members@.len(),
            all == members_view(members@),
            forall|a: int, b: int| 0 <= a < b < j ==> (#[trigger] all[a]).0 != (#[trigger] all[b]).0,
        decreases members.len() - j,
    {
        let mut i: usize = 0;
        while i < j
            invariant
                i <= j < members@.len(),
                all == members_view(members@),
                forall|a: int| 0 <= a < i ==> (#[trigger] all[a]).0 != all[j as int].0,
            decreases j - i,
        {
            assert(all[i as int].0 == members@[i as int].0@);
            assert(all[j as int].0 == members@[j as int].0@);
            if same_text(members[i].0, members[j].0) {
                return false;
            }
            i += 1;
        }
        j += 1;
    }
    true
}

/// Reads a text that writes an object plainly; any other text says nothing.
pub fn read_plain<'a>(text: &'a str) -> (result: Option<(&'a str, Vec<(&'a str, &'a str)>)>)
    ensures
        parts_view(result) == plain_form(text@),
{
    let chars = chars_of(text);
    proof {
        lemma_plain_form(text@);
    }
    if chars.len() < 2 || chars[0] != '{' || chars[1] != '"' {
        return None;
    }
    let end = match find_end(&chars, 2) {
        Some(end) => end,
        None => {
            return None;
        },
    };
    if chars.len() - end < 3 || chars[end + 1] != ':' || chars[end + 2] != '{' {
        return None;
    }
    let key = text.substring_char(2, end);
    if closes(&chars, end + 3) {
        let members: Vec<(&'a str, &'a str)> = Vec::new();
        assert(members_view(members@) =~= Seq::empty());
        return Some((key, members));
    }
    match read_members(text, &chars, end + 3) {
        Some(members) => if differ(&members) {
            Some((key, members))
        } else {
            None
        },
        None => None,
    }
}

/// The value of a member, where no key occurs twice.
pub fn member_value<'a>(members: &Vec<(&'a str, &'a str)>, key: &str) -> (result: Option<&'a str>)
    requires
        members_differ(members_view(members@)),
    ensures
        match result {
            Some(value) => {
                &&& members_json(members_view(members@)).contains_key(key@)
                &&& members_json(members_view(members@))[key@] == Json::String(value@)
            },
            None => !members_json(members_view(members@)).contains_key(key@),
        },
{
    let ghost all = members_view(members@);
    let mut i: usize = 0;
    while i < members.len()
        invariant
            i <= members@.len(),
            all == members_view(members@),
            members_differ(all),
            forall|j: int| 0 <= j < i ==> (#[trigger] all[j]).0 != key@,
        decreases members.len() - i,
    {
        assert(all[i as int] == (members@[i as int].0@, members@[i as int].1@));
        if same_text(members[i].0, key) {
            proof {
                assert(member_at(all, key@, i as int));
                let k = choose|k: int| member_at(all, key@, k);
                if k < i {
                    assert(all[k].0 != all[i as int].0);
                } else if i < k {
                    assert(all[i as int].0 != all[k].0);
                }
            }
            return Some(members[i].1);
        }
        i += 1;
    }
    assert(!has_member(all, key@)) by {
        if has_member(all, key@) {
            let k = choose|k: int| member_at(all, key@, k);
            assert(all[k].0 != key@);
        }
    }
    None
}

} // verus!
